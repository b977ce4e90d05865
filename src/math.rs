//! Number-theoretic helpers of the counting formulas: factorial, the Möbius
//! function and a variant of Euler's totient.
use vstd::prelude::*;
use vstd::arithmetic::power::{lemma1_pow, lemma_pow0, lemma_pow_adds, lemma_pow1, lemma_pow_increases, pow};

verus! {

/// The upper bound of the primes sieved to factor a number.
pub const SIEVE_LIMIT: usize = 10000;

/// The largest number that a sieve up to `SIEVE_LIMIT` factors completely:
/// the square of the largest number it stores, 9999.
pub const FACTOR_LIMIT: usize = 99980001;

/// The bound below which reikna computes a totient by trial division alone.
pub const TOTIENT_LIMIT: u64 = 65536;

/// The prime factorisation of `n`, as (prime, exponent) pairs by increasing prime.
pub uninterp spec fn prime_factorization(n: nat) -> Seq<(nat, nat)>;

/// `p` is a prime number.
pub open spec fn is_prime(p: nat) -> bool {
    p >= 2 && forall|d: nat| 2 <= d < p ==> #[trigger] (p % d) != 0
}

/// The product of `p^e` over the pairs `(p, e)` of `f`.
pub open spec fn factor_product(f: Seq<(nat, nat)>) -> int
    decreases f.len(),
{
    if f.len() == 0 {
        1
    } else {
        factor_product(f.drop_last()) * pow(f.last().0 as int, f.last().1)
    }
}

/// `f` is the prime factorisation of `n`: primes in increasing order, each
/// with a positive exponent, whose product is `n`.
pub open spec fn is_factorization(f: Seq<(nat, nat)>, n: nat) -> bool {
    &&& forall|i: int| 0 <= i < f.len() ==> is_prime(#[trigger] f[i].0) && f[i].1 >= 1
    &&& forall|i: int, j: int| 0 <= i < j < f.len() ==> #[trigger] f[i].0 < #[trigger] f[j].0
    &&& factor_product(f) == n
}

/// Euler's totient of `n`, as reikna computes it.
pub uninterp spec fn totient_of(n: nat) -> nat;

/// `n!`
pub open spec fn fact(n: nat) -> nat
    decreases n,
{
    if n == 0 {
        1
    } else {
        n * fact((n - 1) as nat)
    }
}

/// The Möbius function read on a factorisation: 0 when a prime appears
/// twice, else 1 or -1 by the parity of the number of primes.
pub open spec fn mobius_of(f: Seq<(nat, nat)>) -> int {
    if exists|i: int| 0 <= i < f.len() && f[i].1 > 1 {
        0
    } else if f.len() % 2 == 0 {
        1
    } else {
        -1
    }
}

/// The Möbius function.
pub open spec fn mobius_value(n: nat) -> int {
    if n == 1 {
        1
    } else {
        mobius_of(prime_factorization(n))
    }
}

/// The totient variant of the conjectured formula: 3/2, 2 or 1 times the
/// totient, as `n` is 0, 2 or odd modulo 4.
pub open spec fn psi_value(n: nat) -> int {
    if n % 4 == 0 {
        (3 * totient_of(n) / 2) as int
    } else if n % 4 == 2 {
        (2 * totient_of(n)) as int
    } else {
        totient_of(n) as int
    }
}

/// The pairs of `v` as natural numbers.
pub open spec fn pairs_view(v: Seq<(usize, usize)>) -> Seq<(nat, nat)> {
    v.map_values(|p: (usize, usize)| (p.0 as nat, p.1 as nat))
}

/// Relies on slow_primes::Primes::sieve and Primes::factor: the sieve up to
/// `SIEVE_LIMIT` stores the numbers up to 9999, so every `n` from 1 to
/// `FACTOR_LIMIT` (9999 squared) factors completely (`Ok`), into its prime
/// factorisation, by increasing prime.
#[verifier::external_body]
fn factorize(n: usize) -> (r: Result<Vec<(usize, usize)>, (usize, Vec<(usize, usize)>)>)
    requires
        1 <= n <= FACTOR_LIMIT,
    ensures
        r is Ok,
        pairs_view(r->Ok_0@) == prime_factorization(n as nat),
        is_factorization(pairs_view(r->Ok_0@), n as nat),
{
    slow_primes::Primes::sieve(SIEVE_LIMIT).factor(n)
}

/// Relies on reikna::totient::totient: a value that depends on `n` alone,
/// computed by trial division without panic for `n` below `TOTIENT_LIMIT`;
/// it is 1 for `n <= 2`, and never above `n`.
#[verifier::external_body]
pub(crate) fn totient(n: u64) -> (r: u64)
    requires
        n < TOTIENT_LIMIT,
    ensures
        r as nat == totient_of(n as nat),
        n <= 2 ==> r == 1,
        n >= 1 ==> r <= n,
{
    reikna::totient::totient(n)
}

/// `n!`, where it fits in 32 bits.
pub fn factorial(n: u32) -> (r: u32)
    requires
        fact(n as nat) <= u32::MAX,
    ensures
        r as nat == fact(n as nat),
    decreases n,
{
    match n {
        0 => 1,
        _ => {
            let ghost f = fact((n - 1) as nat);
            assert(f <= n * f) by (nonlinear_arith)
                requires
                    n >= 1,
            {}
            n * factorial(n - 1)
        },
    }
}

/// The factorial is monotone.
pub proof fn lemma_fact_monotone(a: nat, b: nat)
    requires
        a <= b,
    ensures
        1 <= fact(a) <= fact(b),
    decreases b,
{
    if b > 0 && a < b {
        lemma_fact_monotone(a, (b - 1) as nat);
        let f = fact((b - 1) as nat);
        assert(f <= b * f) by (nonlinear_arith)
            requires
                b >= 1,
        {}
    } else if b > 0 {
        lemma_fact_monotone(0, (b - 1) as nat);
        let f = fact((b - 1) as nat);
        assert(1 <= b * f) by (nonlinear_arith)
            requires
                b >= 1,
                f >= 1,
        {}
    }
}

/// The Möbius function of `n`.
pub fn mobius(n: usize) -> (r: i8)
    requires
        1 <= n <= FACTOR_LIMIT,
    ensures
        r as int == mobius_value(n as nat),
{
    if n == 1 {
        return 1;
    }
    let factors = factorize(n);
    let decomposition = match factors {
        Ok(v) => v,
        Err(_) => {
            return 0;
        },
    };
    let ghost f = pairs_view(decomposition@);
    assert(f == prime_factorization(n as nat));
    let mut i: usize = 0;
    while i < decomposition.len()
        invariant
            i <= decomposition.len(),
            f == pairs_view(decomposition@),
            f == prime_factorization(n as nat),
            n != 1,
            forall|j: int| 0 <= j < i ==> f[j].1 <= 1,
        decreases decomposition.len() - i,
    {
        if decomposition[i].1 > 1 {
            assert(f[i as int].1 > 1);
            return 0;
        }
        i = i + 1;
    }
    if decomposition.len() % 2 == 0 {
        1
    } else {
        -1
    }
}

/// The totient variant of the conjectured formula.
pub fn psi(n: u64) -> (r: u64)
    requires
        n < TOTIENT_LIMIT,
    ensures
        r as int == psi_value(n as nat),
        r <= 2 * n + 1,
{
    let phi = totient(n);
    match n % 4 {
        0 => 3 * phi / 2,
        2 => 2 * phi,
        _ => phi,
    }
}

/// `b^e`, or `None` where it overflows 32 bits.
pub fn checked_pow(b: u32, e: usize) -> (r: Option<u32>)
    ensures
        r is Some <==> pow(b as int, e as nat) <= u32::MAX,
        r matches Some(v) ==> v as int == pow(b as int, e as nat),
{
    proof {
        lemma_pow0(b as int);
    }
    if b == 0 {
        if e == 0 {
            return Some(1);
        }
        proof {
            vstd::arithmetic::power::lemma0_pow(e as nat);
        }
        return Some(0);
    }
    if b == 1 {
        proof {
            lemma1_pow(e as nat);
        }
        return Some(1);
    }
    let mut acc: u32 = 1;
    let mut j: usize = 0;
    while j < e
        invariant
            b >= 2,
            j <= e,
            acc as int == pow(b as int, j as nat),
        decreases e - j,
    {
        proof {
            lemma_pow_adds(b as int, j as nat, 1);
            lemma_pow1(b as int);
        }
        match acc.checked_mul(b) {
            Some(x) => {
                acc = x;
            },
            None => {
                proof {
                    lemma_pow_increases(b as nat, (j + 1) as nat, e as nat);
                }
                return None;
            },
        }
        j = j + 1;
    }
    Some(acc)
}

} // verus!
