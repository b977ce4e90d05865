//! Counting simple cycles of de Bruijn graphs: by closed formulas where one
//! is known (proved or conjectured), else by enumerating perfect Lyndon words.
use vstd::prelude::*;
use vstd::arithmetic::power::{lemma_pow_increases, lemma_pow_positive, pow};
use crate::enumerate::{cycles_from, kept};
use crate::lyndon::{LyndonWord, is_run};
use crate::math::{
    FACTOR_LIMIT, TOTIENT_LIMIT, checked_pow, fact, factorial, lemma_fact_monotone, mobius,
    mobius_value, psi, psi_value, totient, totient_of,
};
use crate::perfect::is_perfect;
use crate::words::{smallest, words_view};

verus! {

/// A number of cycles together with the way it was obtained.
#[derive(Debug, PartialEq, Eq, Structural)]
pub enum Count {
    FromProvedFormula(u32),
    FromConjecturedFormula(u32),
    FromEnum(u32),
    NoFormula,
}

impl Count {
    /// The number, whatever its origin; `None` when there is none.
    pub fn to_option(&self) -> (r: Option<u32>)
        ensures
            r == match *self {
                Count::FromProvedFormula(x) => Some(x),
                Count::FromConjecturedFormula(x) => Some(x),
                Count::FromEnum(x) => Some(x),
                Count::NoFormula => None::<u32>,
            },
    {
        match *self {
            Count::FromProvedFormula(x) => Some(x),
            Count::FromConjecturedFormula(x) => Some(x),
            Count::FromEnum(x) => Some(x),
            Count::NoFormula => None,
        }
    }
}

/// The divisors `d` of `n` with `2 <= d < hi`, in increasing order.
pub open spec fn divisors_below(n: nat, hi: nat) -> Seq<nat>
    decreases hi,
{
    if hi <= 2 {
        Seq::empty()
    } else {
        let rest = divisors_below(n, (hi - 1) as nat);
        if n % ((hi - 1) as nat) == 0 {
            rest.push((hi - 1) as nat)
        } else {
            rest
        }
    }
}

/// The divisors of `l`, in the order the Lyndon-word count sums over them.
pub open spec fn lw_divisors(l: nat) -> Seq<nat> {
    if l == 1 {
        seq![1nat]
    } else {
        divisors_below(l, l).push(1).push(l)
    }
}

/// The sum of `mobius(d) * sigma^(l/d)` over the divisors `ds`.
pub open spec fn lw_sum(ds: Seq<nat>, l: nat, sigma: nat) -> int
    decreases ds.len(),
{
    if ds.len() == 0 {
        0
    } else {
        lw_sum(ds.drop_last(), l, sigma) + mobius_value(ds.last()) * pow(
            sigma as int,
            l / ds.last(),
        )
    }
}

/// The number of Lyndon words of length `l` over `sigma` letters (Witt's
/// formula), where it fits in 32 bits.
pub open spec fn lw_formula(l: nat, sigma: nat) -> Option<u32> {
    let s = lw_sum(lw_divisors(l), l, sigma);
    if 0 <= s && s / (l as int) <= u32::MAX {
        Some((s / (l as int)) as u32)
    } else {
        None
    }
}

/// The range in which the Lyndon-word formula is evaluated in 64 bits.
pub open spec fn lw_in_range(l: nat, sigma: nat) -> bool {
    1 <= l <= FACTOR_LIMIT && l * pow(sigma as int, l) <= i64::MAX
}

/// The number of non-perfect Lyndon words of length `k + 2` (proved).
pub open spec fn plustwo_formula(k: nat, sigma: nat) -> Option<u32> {
    let v = totient_of(k + 2) * (sigma * (sigma - 1) / 2);
    if k + 2 < TOTIENT_LIMIT && v <= u32::MAX {
        Some(v as u32)
    } else {
        None
    }
}

/// The number of non-perfect Lyndon words of length `k + 3` (conjectured).
pub open spec fn plusthree_formula(k: nat, s: nat) -> Option<u32> {
    let p = psi_value(k + 3);
    let v = p * (s - 1) * s * s;
    if k + 3 < TOTIENT_LIMIT && v <= u32::MAX && v / 2 >= s * (s - 1) {
        Some((v / 2 - s * (s - 1)) as u32)
    } else {
        None
    }
}

/// The number of de Bruijn sequences of order `k` over `sigma` letters.
pub open spec fn dbs_formula(k: nat, sigma: nat) -> Option<u32> {
    let e = pow(sigma as int, (k - 1) as nat);
    let a = pow(fact((sigma - 1) as nat) as int, e as nat);
    let b = pow(sigma as int, (e - k) as nat);
    if e <= u32::MAX && sigma - 1 <= 12 && a <= u32::MAX && e >= k && b <= u32::MAX && a * b
        <= u32::MAX {
        Some((a * b) as u32)
    } else {
        None
    }
}

/// The difference of two formula values, where both exist and it is not negative.
pub open spec fn minus(a: Option<u32>, b: Option<u32>) -> Option<u32> {
    match (a, b) {
        (Some(x), Some(y)) => if x >= y {
            Some((x - y) as u32)
        } else {
            None
        },
        _ => None,
    }
}

/// What the closed formulas give for cycles of length `l` in the graph of
/// order `k` over `sigma` letters; `None` where none applies or its value
/// does not fit in 32 bits.
pub open spec fn formula_count(l: nat, k: nat, sigma: nat) -> Option<Count> {
    if l <= k + 1 {
        if lw_in_range(l, sigma) {
            match lw_formula(l, sigma) {
                Some(x) => Some(Count::FromProvedFormula(x)),
                None => None,
            }
        } else {
            None
        }
    } else if l == k + 2 {
        if lw_in_range(l, sigma) {
            match minus(lw_formula(l, sigma), plustwo_formula(k, sigma)) {
                Some(x) => Some(Count::FromProvedFormula(x)),
                None => None,
            }
        } else {
            None
        }
    } else if l == k + 3 {
        if lw_in_range(l, sigma) {
            match minus(lw_formula(l, sigma), plusthree_formula(k, sigma)) {
                Some(x) => Some(Count::FromConjecturedFormula(x)),
                None => None,
            }
        } else {
            None
        }
    } else if l == pow(sigma as int, k) {
        match dbs_formula(k, sigma) {
            Some(x) => Some(Count::FromProvedFormula(x)),
            None => None,
        }
    } else {
        None
    }
}

/// Relies on divisors::get_divisors: for `n >= 3`, the divisors of `n`
/// strictly between 1 and `n`, in increasing order.
#[verifier::external_body]
fn proper_divisors(n: usize) -> (r: Vec<usize>)
    requires
        n >= 3,
    ensures
        r@.map_values(|d: usize| d as nat) == divisors_below(n as nat, n as nat),
{
    divisors::get_divisors(n)
}

/// Relies on num::integer::binomial: `n` choose 2, computed without
/// overflow for every `n` of 16 bits.
#[verifier::external_body]
fn binomial(n: u32, k: u32) -> (r: u32)
    requires
        k == 2,
        n <= 65535,
    ensures
        r as int == n * (n - 1) / 2,
{
    num::integer::binomial(n, k)
}

proof fn lemma_divisors_below(n: nat, hi: nat)
    ensures
        hi >= 2 ==> divisors_below(n, hi).len() <= hi - 2,
        forall|i: int|
            0 <= i < divisors_below(n, hi).len() ==> 2 <= #[trigger] divisors_below(n, hi)[i]
                < hi,
    decreases hi,
{
    if hi > 2 {
        lemma_divisors_below(n, (hi - 1) as nat);
    }
}

/// `b^e` in 64 bits, where it fits.
fn pow_i64(b: i64, e: u32) -> (r: i64)
    requires
        b >= 1,
        pow(b as int, e as nat) <= i64::MAX,
    ensures
        r as int == pow(b as int, e as nat),
{
    let mut acc: i64 = 1;
    let mut j: u32 = 0;
    proof {
        vstd::arithmetic::power::lemma_pow0(b as int);
    }
    while j < e
        invariant
            b >= 1,
            j <= e,
            acc as int == pow(b as int, j as nat),
            pow(b as int, e as nat) <= i64::MAX,
        decreases e - j,
    {
        proof {
            vstd::arithmetic::power::lemma_pow_adds(b as int, j as nat, 1);
            vstd::arithmetic::power::lemma_pow1(b as int);
            lemma_pow_increases(b as nat, (j + 1) as nat, e as nat);
        }
        assert(pow(b as int, (j + 1) as nat) <= i64::MAX);
        proof {
            lemma_pow_positive(b as int, (j + 1) as nat);
        }
        assert(acc * b == pow(b as int, (j + 1) as nat));
        acc = acc * b;
        j = j + 1;
    }
    acc
}

/// Whether `lw_in_range(l, sigma)` holds.
fn check_lw_range(l: usize, sigma: u8) -> (r: bool)
    requires
        sigma >= 2,
    ensures
        r == lw_in_range(l as nat, sigma as nat),
{
    if l < 1 || l > FACTOR_LIMIT {
        return false;
    }
    let mut p: u128 = 1;
    let mut j: usize = 0;
    proof {
        vstd::arithmetic::power::lemma_pow0(sigma as int);
    }
    while j < l
        invariant
            sigma >= 2,
            1 <= l <= FACTOR_LIMIT,
            j <= l,
            p as int == pow(sigma as int, j as nat),
            p <= i64::MAX,
        decreases l - j,
    {
        proof {
            vstd::arithmetic::power::lemma_pow_adds(sigma as int, j as nat, 1);
            vstd::arithmetic::power::lemma_pow1(sigma as int);
        }
        assert(p * sigma <= 255 * i64::MAX) by (nonlinear_arith)
            requires
                p <= i64::MAX,
                sigma <= 255,
        ;
        p = p * (sigma as u128);
        if p > i64::MAX as u128 {
            proof {
                lemma_pow_increases(sigma as nat, (j + 1) as nat, l as nat);
                assert(l * pow(sigma as int, l as nat) >= pow(sigma as int, l as nat))
                    by (nonlinear_arith)
                    requires
                        l >= 1,
                        pow(sigma as int, l as nat) >= 0,
                ;
            }
            return false;
        }
        j = j + 1;
    }
    assert(l * p <= FACTOR_LIMIT * i64::MAX) by (nonlinear_arith)
        requires
            l <= FACTOR_LIMIT,
            p <= i64::MAX,
    ;
    (l as u128) * p <= i64::MAX as u128
}

/// The number of Lyndon words of length `l` over `sigma` letters, where it
/// fits in 32 bits.
pub fn nb_lw(l: usize, sigma: u8) -> (r: Option<u32>)
    requires
        sigma >= 2,
        lw_in_range(l as nat, sigma as nat),
    ensures
        r == lw_formula(l as nat, sigma as nat),
{
    let mut divisors_of_l: Vec<usize>;
    if l == 1 {
        divisors_of_l = Vec::new();
        divisors_of_l.push(1);
    } else if l == 2 {
        divisors_of_l = Vec::new();
        divisors_of_l.push(1);
        divisors_of_l.push(2);
    } else {
        divisors_of_l = proper_divisors(l);
        divisors_of_l.push(1);
        divisors_of_l.push(l);
    }
    let ghost ds = lw_divisors(l as nat);
    let ghost big = pow(sigma as int, l as nat);
    proof {
        lemma_divisors_below(l as nat, l as nat);
        assert(divisors_of_l@.map_values(|d: usize| d as nat) =~= ds);
        lemma_pow_positive(sigma as int, l as nat);
    }
    let mut sum: i64 = 0;
    let mut i: usize = 0;
    while i < divisors_of_l.len()
        invariant
            sigma >= 2,
            lw_in_range(l as nat, sigma as nat),
            big == pow(sigma as int, l as nat),
            big >= 1,
            ds == lw_divisors(l as nat),
            divisors_of_l@.map_values(|d: usize| d as nat) == ds,
            ds.len() <= l,
            forall|j: int| 0 <= j < ds.len() ==> 1 <= #[trigger] ds[j] <= l,
            i <= divisors_of_l.len(),
            sum as int == lw_sum(ds.take(i as int), l as nat, sigma as nat),
            -(i * big) <= sum <= i * big,
        decreases divisors_of_l.len() - i,
    {
        let d = divisors_of_l[i];
        assert(ds[i as int] == d);
        let mobius_coeff = mobius(d) as i64;
        let quotient = (l / d) as u32;
        proof {
            assert(l as nat / d as nat <= l) by (nonlinear_arith)
                requires
                    d >= 1,
            ;
            lemma_pow_increases(sigma as nat, quotient as nat, l as nat);
            lemma_pow_positive(sigma as int, quotient as nat);
            assert(big <= l * big) by (nonlinear_arith)
                requires
                    l >= 1,
                    big >= 1,
            ;
        }
        let power = pow_i64(sigma as i64, quotient);
        let ghost s0 = sum as int;
        proof {
            assert(ds.take(i as int + 1).drop_last() =~= ds.take(i as int));
            assert(-1 <= mobius_coeff <= 1);
            assert((i + 1) * big <= l * big) by (nonlinear_arith)
                requires
                    i + 1 <= l,
                    big >= 1,
            ;
            assert((i + 1) * big == i * big + big) by (nonlinear_arith);
            assert(-big <= mobius_coeff * power <= big) by (nonlinear_arith)
                requires
                    -1 <= mobius_coeff <= 1,
                    0 <= power <= big,
            ;
        }
        sum = sum + mobius_coeff * power;
        i = i + 1;
    }
    proof {
        assert(ds.take(ds.len() as int) =~= ds);
    }
    if sum < 0 {
        return None;
    }
    let q = sum / (l as i64);
    if q > u32::MAX as i64 {
        None
    } else {
        Some(q as u32)
    }
}

/// The number of non-perfect Lyndon words of length `k + 2` over `sigma`
/// letters, where it fits in 32 bits.
pub fn nb_nplw_plustwo(k: usize, sigma: u8) -> (r: Option<u32>)
    requires
        sigma >= 2,
    ensures
        r == plustwo_formula(k as nat, sigma as nat),
{
    if k >= (TOTIENT_LIMIT - 2) as usize {
        return None;
    }
    let n = (k + 2) as u64;
    let phi = totient(n);
    let b = binomial(sigma as u32, 2);
    proof {
        assert(b >= 1) by (nonlinear_arith)
            requires
                b as int == sigma * (sigma - 1) / 2,
                sigma >= 2,
        ;
        assert(phi <= phi * b) by (nonlinear_arith)
            requires
                b >= 1,
        ;
    }
    if phi > u32::MAX as u64 {
        return None;
    }
    (phi as u32).checked_mul(b)
}

/// The conjectured number of non-perfect Lyndon words of length `k + 3`
/// over `sigma` letters, where it fits in 32 bits.
pub fn nb_nplw_plusthree(k: usize, sigma: u8) -> (r: Option<u32>)
    requires
        sigma >= 2,
    ensures
        r == plusthree_formula(k as nat, sigma as nat),
{
    let s = sigma as u32;
    if k >= (TOTIENT_LIMIT - 3) as usize {
        return None;
    }
    let n = (k + 3) as u64;
    let p = psi(n) as u32;
    assert(s * (s - 1) <= 255 * 255) by (nonlinear_arith)
        requires
            2 <= s <= 255,
    ;
    let ghost big = p * (s - 1) * s * s;
    proof {
        assert(p * (s - 1) <= p * (s - 1) * s && p * (s - 1) * s <= big) by (nonlinear_arith)
            requires
                s >= 2,
                big == p * (s - 1) * s * s,
        ;
    }
    let v = match p.checked_mul(s - 1) {
        Some(v) => v,
        None => {
            return None;
        },
    };
    let v = match v.checked_mul(s) {
        Some(v) => v,
        None => {
            return None;
        },
    };
    let v = match v.checked_mul(s) {
        Some(v) => v,
        None => {
            return None;
        },
    };
    (v / 2).checked_sub(s * (s - 1))
}

/// The number of de Bruijn sequences of order `order` over `sigma` letters,
/// where it fits in 32 bits.
pub fn nb_dbs(order: usize, sigma: u8) -> (r: Option<u32>)
    requires
        order >= 1,
        sigma >= 2,
    ensures
        r == dbs_formula(order as nat, sigma as nat),
{
    let sigma_to_kminusone = match checked_pow(sigma as u32, order - 1) {
        Some(e) => e,
        None => {
            return None;
        },
    };
    if sigma - 1 > 12 {
        return None;
    }
    proof {
        lemma_fact_monotone((sigma - 1) as nat, 12);
        assert(fact(12) == 479001600) by {
            assert(fact(0) == 1);
            assert(fact(1) == 1);
            assert(fact(2) == 2);
            assert(fact(3) == 6);
            assert(fact(4) == 24);
            assert(fact(5) == 120);
            assert(fact(6) == 720);
            assert(fact(7) == 5040);
            assert(fact(8) == 40320);
            assert(fact(9) == 362880);
            assert(fact(10) == 3628800);
            assert(fact(11) == 39916800);
        }
    }
    let f = factorial((sigma - 1) as u32);
    let a = match checked_pow(f, sigma_to_kminusone as usize) {
        Some(a) => a,
        None => {
            return None;
        },
    };
    if (sigma_to_kminusone as usize) < order {
        return None;
    }
    let b = match checked_pow(sigma as u32, sigma_to_kminusone as usize - order) {
        Some(b) => b,
        None => {
            return None;
        },
    };
    proof {
        let e = pow(sigma as int, (order - 1) as nat);
        assert(sigma_to_kminusone as int == e);
        assert(f as int == fact((sigma - 1) as nat));
        assert(a as int == pow(fact((sigma - 1) as nat) as int, e as nat));
        assert(b as int == pow(sigma as int, (e - order) as nat));
    }
    a.checked_mul(b)
}

/// The number of kept words of a run: the cycles that they stand for.
pub open spec fn enum_count(ws: Seq<Seq<u8>>, k: nat) -> nat {
    cycles_from(ws, k).len()
}

/// The number of simple cycles of length `length` in the de Bruijn graph of
/// order `order` over `sigma` letters, by enumerating perfect Lyndon words.
pub fn count_cycles_only_enum(length: usize, order: usize, sigma: u8) -> (r: Count)
    requires
        length >= 1,
        order >= 1,
        sigma >= 2,
    ensures
        exists|ws: Seq<Seq<u8>>|
            {
                &&& is_run(ws, length as nat, (sigma - 1) as u8, true)
                &&& ws[0] == smallest(length as nat)
                &&& r == Count::FromEnum(enum_count(ws, order as nat) as u32)
            },
{
    let lws = LyndonWord::new_smallest(length, sigma - 1).iter(true).collect();
    let ghost ws = words_view(lws@);
    proof {
        assert forall|j: int| 0 <= j < lws.len() implies #[trigger] lws@[j]@.len() == length by {
            assert(ws[j] == lws@[j]@);
        }
    }
    let mut count: usize = 0;
    let mut i: usize = 0;
    while i < lws.len()
        invariant
            i <= lws.len(),
            ws == words_view(lws@),
            order >= 1,
            forall|j: int| 0 <= j < lws.len() ==> #[trigger] lws@[j]@.len() == length,
            count == enum_count(ws.take(i as int), order as nat),
            count <= i,
        decreases lws.len() - i,
    {
        let keep = if length > order {
            is_perfect(&lws[i], order)
        } else {
            true
        };
        proof {
            assert(ws.take(i as int + 1).drop_last() =~= ws.take(i as int));
            assert(ws.take(i as int + 1).last() == lws@[i as int]@);
            assert(keep == kept(lws@[i as int]@, order as nat));
        }
        if keep {
            count = count + 1;
        }
        i = i + 1;
    }
    proof {
        assert(ws.take(lws.len() as int) =~= ws);
        assert(ws[0] == lws@[0]@);
    }
    Count::FromEnum(count as u32)
}

/// The number of simple cycles of length `length` in the de Bruijn graph of
/// order `order` over `sigma` letters: from a closed formula where one
/// applies, else by enumeration, or `NoFormula` when `only_formula`.
pub fn count_cycles_with_formula(length: usize, order: usize, sigma: u8, only_formula: bool) -> (r:
    Count)
    requires
        length >= 1,
        order >= 1,
        sigma >= 2,
    ensures
        formula_count(length as nat, order as nat, sigma as nat) matches Some(c) ==> r == c,
        formula_count(length as nat, order as nat, sigma as nat) is None && only_formula ==> r
            == Count::NoFormula,
        formula_count(length as nat, order as nat, sigma as nat) is None && !only_formula
            ==> exists|ws: Seq<Seq<u8>>|
            {
                &&& is_run(ws, length as nat, (sigma - 1) as u8, true)
                &&& ws[0] == smallest(length as nat)
                &&& r == Count::FromEnum(enum_count(ws, order as nat) as u32)
            },
{
    let formula = formula_only(length, order, sigma);
    match formula {
        Some(c) => c,
        None => {
            if only_formula {
                Count::NoFormula
            } else {
                count_cycles_only_enum(length, order, sigma)
            }
        },
    }
}

/// `formula_count(length, order, sigma)`.
fn formula_only(length: usize, order: usize, sigma: u8) -> (r: Option<Count>)
    requires
        length >= 1,
        order >= 1,
        sigma >= 2,
    ensures
        r == formula_count(length as nat, order as nat, sigma as nat),
{
    if length - 1 <= order {
        if !check_lw_range(length, sigma) {
            return None;
        }
        match nb_lw(length, sigma) {
            Some(x) => Some(Count::FromProvedFormula(x)),
            None => None,
        }
    } else if length - 2 == order {
        if !check_lw_range(length, sigma) {
            return None;
        }
        let a = nb_lw(length, sigma);
        let b = nb_nplw_plustwo(order, sigma);
        match (a, b) {
            (Some(x), Some(y)) => if x >= y {
                Some(Count::FromProvedFormula(x - y))
            } else {
                None
            },
            _ => None,
        }
    } else if length - 3 == order {
        if !check_lw_range(length, sigma) {
            return None;
        }
        let a = nb_lw(length, sigma);
        let b = nb_nplw_plusthree(order, sigma);
        match (a, b) {
            (Some(x), Some(y)) => if x >= y {
                Some(Count::FromConjecturedFormula(x - y))
            } else {
                None
            },
            _ => None,
        }
    } else if is_graph_size(length, order, sigma) {
        match nb_dbs(order, sigma) {
            Some(x) => Some(Count::FromProvedFormula(x)),
            None => None,
        }
    } else {
        None
    }
}

/// Whether `length == sigma^order`.
fn is_graph_size(length: usize, order: usize, sigma: u8) -> (r: bool)
    requires
        sigma >= 2,
        length >= 1,
    ensures
        r == (length == pow(sigma as int, order as nat)),
{
    let mut p: usize = 1;
    let mut e: usize = 0;
    proof {
        vstd::arithmetic::power::lemma_pow0(sigma as int);
    }
    while e < order
        invariant
            sigma >= 2,
            e <= order,
            p as int == pow(sigma as int, e as nat),
            p <= length,
        decreases order - e,
    {
        proof {
            vstd::arithmetic::power::lemma_pow_adds(sigma as int, e as nat, 1);
            vstd::arithmetic::power::lemma_pow1(sigma as int);
            lemma_pow_increases(sigma as nat, (e + 1) as nat, order as nat);
        }
        if p > length / (sigma as usize) {
            proof {
                assert(p * sigma > length) by (nonlinear_arith)
                    requires
                        p > (length as int) / (sigma as int),
                        sigma >= 2,
                ;
            }
            return false;
        }
        proof {
            assert(p * sigma <= length) by (nonlinear_arith)
                requires
                    p <= (length as int) / (sigma as int),
                    sigma >= 2,
            ;
        }
        p = p * (sigma as usize);
        e = e + 1;
    }
    p == length
}

} // verus!
