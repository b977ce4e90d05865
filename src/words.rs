//! Words over a small alphabet, and the combinatorics on words that the
//! rest of the library states its contracts with: lexicographic order,
//! rotations, Lyndon words and cyclic windows.
use vstd::prelude::*;

verus! {

/// A letter of the alphabet `[0, sigma)`.
pub type Letter = u8;

/// A finite sequence of letters.
pub type Word = Vec<Letter>;

/// A closed walk in a de Bruijn graph, one node per entry.
pub type Cycle = Vec<Word>;

/// The letters of each word of `v`.
pub open spec fn words_view(v: Seq<Vec<u8>>) -> Seq<Seq<u8>> {
    v.map_values(|w: Vec<u8>| w@)
}

/// The letters of each node of each cycle of `v`.
pub open spec fn cycles_view(v: Seq<Vec<Vec<u8>>>) -> Seq<Seq<Seq<u8>>> {
    v.map_values(|c: Vec<Vec<u8>>| words_view(c@))
}

/// A fresh copy of `w`.
pub fn copy_word(w: &Word) -> (r: Word)
    ensures
        r@ == w@,
{
    let mut r: Word = Vec::with_capacity(w.len());
    let mut t: usize = 0;
    while t < w.len()
        invariant
            t <= w.len(),
            r@ =~= w@.subrange(0, t as int),
        decreases w.len() - t,
    {
        r.push(w[t]);
        t = t + 1;
    }
    assert(w@.subrange(0, w.len() as int) =~= w@);
    r
}

/// `d` is the first position where `a` and `b` differ, and `a` is smaller there.
pub open spec fn first_diff_lt(a: Seq<u8>, b: Seq<u8>, d: int) -> bool {
    &&& 0 <= d < a.len()
    &&& d < b.len()
    &&& a[d] < b[d]
    &&& forall|s: int| 0 <= s < d ==> a[s] == b[s]
}

/// Strict lexicographic order: `a` is a proper prefix of `b`, or `a` is
/// smaller at the first position where they differ.
pub open spec fn lex_lt(a: Seq<u8>, b: Seq<u8>) -> bool {
    ||| (a.len() < b.len() && forall|s: int| 0 <= s < a.len() ==> a[s] == b[s])
    ||| exists|d: int| first_diff_lt(a, b, d)
}

/// The rotation of `w` that starts at position `r`.
pub open spec fn rotate(w: Seq<u8>, r: int) -> Seq<u8> {
    Seq::new(w.len(), |t: int| w[(r + t) % (w.len() as int)])
}

/// A non-empty word strictly smaller than each of its proper rotations.
pub open spec fn is_lyndon(w: Seq<u8>) -> bool {
    &&& w.len() >= 1
    &&& forall|r: int| 0 < r < w.len() ==> #[trigger] lex_lt(w, rotate(w, r))
}

/// Every letter of `w` is at most `m`.
pub open spec fn letters_le(w: Seq<u8>, m: u8) -> bool {
    forall|t: int| 0 <= t < w.len() ==> #[trigger] w[t] <= m
}

/// The word of length `k` read cyclically in `w` from position `i`.
pub open spec fn window(w: Seq<u8>, k: nat, i: int) -> Seq<u8> {
    Seq::new(k, |j: int| w[(i + j) % (w.len() as int)])
}

/// `w` repeated cyclically up to length `n`.
pub open spec fn extend(w: Seq<u8>, n: nat) -> Seq<u8> {
    Seq::new(n, |t: int| w[t % (w.len() as int)])
}

/// `x` with its trailing letters equal to `m` removed.
pub open spec fn strip(x: Seq<u8>, m: u8) -> Seq<u8>
    decreases x.len(),
{
    if x.len() == 0 {
        x
    } else if x.last() == m {
        strip(x.drop_last(), m)
    } else {
        x
    }
}

/// `x` with its last letter raised by one.
pub open spec fn bump(x: Seq<u8>) -> Seq<u8> {
    x.update(x.len() - 1, (x.last() + 1) as u8)
}

/// Strip the trailing maximal letters of `x`, then raise the last letter left.
pub open spec fn succ(x: Seq<u8>, m: u8) -> Seq<u8> {
    bump(strip(x, m))
}

/// The word `0^(n-1) 1`, or `0` when `n` is 1.
pub open spec fn smallest(n: nat) -> Seq<u8> {
    Seq::new(n, |t: int| if n > 1 && t == n - 1 { 1u8 } else { 0u8 })
}

/// No factor of `x` is smaller than the prefix of `x` of the same length,
/// position by position: where `x[j..j+t]` agrees with `x[0..t]`, the next
/// letter of the factor is at least the next letter of the prefix.
pub open spec fn prenecklace(x: Seq<u8>) -> bool {
    forall|j: int, t: int|
        #![trigger x[j + t], x[t]]
        0 < j && 0 <= t && j + t < x.len() && agree(x, j, t) ==> x[j + t] >= x[t]
}

/// `x[j..j+t]` equals `x[0..t]`.
pub open spec fn agree(x: Seq<u8>, j: int, t: int) -> bool {
    forall|s: int| 0 <= s < t ==> #[trigger] x[j + s] == x[s]
}

/// `strip` keeps a prefix of its argument.
pub proof fn lemma_strip(x: Seq<u8>, m: u8)
    ensures
        strip(x, m).len() <= x.len(),
        strip(x, m) =~= x.subrange(0, strip(x, m).len() as int),
        strip(x, m).len() > 0 ==> strip(x, m).last() != m,
        forall|t: int| strip(x, m).len() <= t < x.len() ==> x[t] == m,
    decreases x.len(),
{
    if x.len() > 0 && x.last() == m {
        lemma_strip(x.drop_last(), m);
        let s = strip(x.drop_last(), m);
        assert forall|t: int| s.len() <= t < x.len() implies x[t] == m by {
            if t < x.len() - 1 {
                assert(x.drop_last()[t] == x[t]);
            }
        }
    }
}

/// The strip of `x` is that of any prefix of `x` that keeps all its other letters.
pub proof fn lemma_strip_prefix(x: Seq<u8>, m: u8, i: int)
    requires
        0 <= i <= x.len(),
        forall|t: int| i <= t < x.len() ==> x[t] == m,
    ensures
        strip(x, m) == strip(x.subrange(0, i), m),
    decreases x.len(),
{
    if i < x.len() {
        assert(x.last() == m);
        assert(x.drop_last().subrange(0, i) =~= x.subrange(0, i));
        lemma_strip_prefix(x.drop_last(), m, i);
    } else {
        assert(x.subrange(0, i) =~= x);
    }
}

/// A prefix of a prenecklace is a prenecklace.
pub proof fn lemma_prenecklace_prefix(x: Seq<u8>, c: int)
    requires
        prenecklace(x),
        0 <= c <= x.len(),
    ensures
        prenecklace(x.subrange(0, c)),
{
    let y = x.subrange(0, c);
    assert forall|j: int, t: int|
        0 < j && 0 <= t && j + t < y.len() && agree(y, j, t) implies y[j + t] >= y[t] by {
        assert forall|s: int| 0 <= s < t implies #[trigger] x[j + s] == x[s] by {
            assert(y[j + s] == y[s]);
        }
        assert(x[j + t] >= x[t]);
    }
}

/// A word read cyclically from a Lyndon word is a prenecklace.
pub proof fn lemma_extend_prenecklace(w: Seq<u8>, n: nat)
    requires
        is_lyndon(w),
    ensures
        prenecklace(extend(w, n)),
{
    let x = extend(w, n);
    let p = w.len() as int;
    assert forall|j: int, t: int|
        0 < j && 0 <= t && j + t < x.len() && agree(x, j, t) implies x[j + t] >= x[t] by {
        let r = j % p;
        assert(x[j + t] == w[(j + t) % p]);
        assert(x[t] == w[t % p]);
        assert((j + t) % p == (r + t) % p) by {
            vstd::arithmetic::div_mod::lemma_add_mod_noop(j, t, p);
            vstd::arithmetic::div_mod::lemma_add_mod_noop(r, t, p);
            vstd::arithmetic::div_mod::lemma_mod_twice(j, p);
        }
        if r == 0 {
            assert(x[j + t] == x[t]);
        } else {
            let rw = rotate(w, r);
            assert(lex_lt(w, rw));
            let d = choose|d: int| first_diff_lt(w, rw, d);
            if d < t {
                assert(x[j + d] == x[d]);
                assert(x[j + d] == w[(j + d) % p]);
                assert((j + d) % p == (r + d) % p) by {
                    vstd::arithmetic::div_mod::lemma_add_mod_noop(j, d, p);
                    vstd::arithmetic::div_mod::lemma_add_mod_noop(r, d, p);
                    vstd::arithmetic::div_mod::lemma_mod_twice(j, p);
                }
                assert(x[d] == w[d % p]);
                assert(d % p == d) by {
                    vstd::arithmetic::div_mod::lemma_small_mod(d as nat, p as nat);
                }
                assert(rw[d] == w[(r + d) % p]);
                assert(false);
            } else if d > t {
                assert(t % p == t) by {
                    vstd::arithmetic::div_mod::lemma_small_mod(t as nat, p as nat);
                }
                assert(rw[t] == w[(r + t) % p]);
                assert(rw[t] == w[t]);
            } else {
                assert(t % p == t) by {
                    vstd::arithmetic::div_mod::lemma_small_mod(t as nat, p as nat);
                }
                assert(rw[t] == w[(r + t) % p]);
            }
        }
    }
}

/// Scans `x` from `t0` for the first `t < lim` where the factor at `r`
/// differs from the prefix; returns `lim` when there is none.
proof fn first_mismatch(x: Seq<u8>, r: int, t0: int, lim: int) -> (t: int)
    requires
        0 <= t0 <= lim,
        0 < r,
        r + lim <= x.len(),
        agree(x, r, t0),
    ensures
        t0 <= t <= lim,
        agree(x, r, t),
        t < lim ==> x[r + t] != x[t],
    decreases lim - t0,
{
    if t0 == lim {
        t0
    } else if x[r + t0] != x[t0] {
        t0
    } else {
        assert(agree(x, r, t0 + 1)) by {
            assert forall|s: int| 0 <= s < t0 + 1 implies #[trigger] x[r + s] == x[s] by {
                if s < t0 {
                    assert(agree(x, r, t0));
                }
            }
        }
        first_mismatch(x, r, t0 + 1, lim)
    }
}

/// Raising the last letter of a prenecklace gives a Lyndon word.
pub proof fn lemma_bump_lyndon(x: Seq<u8>)
    requires
        prenecklace(x),
        x.len() >= 1,
        x.last() < 255,
    ensures
        is_lyndon(bump(x)),
{
    let y = bump(x);
    let c = x.len() as int;
    assert forall|r: int| 0 < r < y.len() implies #[trigger] lex_lt(y, rotate(y, r)) by {
        let ry = rotate(y, r);
        let t = first_mismatch(x, r, 0, c - 1 - r);
        assert forall|s: int| 0 <= s < t implies y[s] == ry[s] by {
            assert((r + s) % c == r + s) by {
                vstd::arithmetic::div_mod::lemma_small_mod((r + s) as nat, c as nat);
            }
            assert(x[r + s] == x[s]);
        }
        assert((r + t) % c == r + t) by {
            vstd::arithmetic::div_mod::lemma_small_mod((r + t) as nat, c as nat);
        }
        assert(x[r + t] >= x[t]);
        assert(first_diff_lt(y, ry, t));
    }
}

/// A Lyndon word with two letters or more holds a letter below `m`.
pub proof fn lemma_lyndon_not_constant(w: Seq<u8>, m: u8)
    requires
        is_lyndon(w),
        w.len() >= 2,
        letters_le(w, m),
    ensures
        exists|t: int| 0 <= t < w.len() && w[t] < m,
{
    if forall|t: int| 0 <= t < w.len() ==> w[t] >= m {
        let rw = rotate(w, 1);
        assert(lex_lt(w, rw));
        assert forall|t: int| 0 <= t < w.len() implies rw[t] == w[t] by {
            assert(w[(1 + t) % (w.len() as int)] == m);
            assert(w[t] == m);
        }
        if exists|d: int| first_diff_lt(w, rw, d) {
            let d = choose|d: int| first_diff_lt(w, rw, d);
            assert(rw[d] == w[d]);
        }
    }
}

/// The smallest word of each length is a Lyndon word.
pub proof fn lemma_smallest_lyndon(n: nat)
    requires
        n >= 1,
    ensures
        is_lyndon(smallest(n)),
{
    let w = smallest(n);
    assert forall|r: int| 0 < r < w.len() implies #[trigger] lex_lt(w, rotate(w, r)) by {
        let rw = rotate(w, r);
        let d = n - 1 - r;
        assert((r + d) % (n as int) == n - 1) by {
            vstd::arithmetic::div_mod::lemma_small_mod((n - 1) as nat, n);
        }
        assert forall|s: int| 0 <= s < d implies w[s] == rw[s] by {
            assert((r + s) % (n as int) == r + s) by {
                vstd::arithmetic::div_mod::lemma_small_mod((r + s) as nat, n);
            }
        }
        assert(first_diff_lt(w, rw, d));
    }
}

/// The number written by the digits `s` in base `base`, most significant first.
pub open spec fn digits_value(s: Seq<nat>, base: nat) -> nat
    decreases s.len(),
{
    if s.len() == 0 {
        0
    } else {
        digits_value(s.drop_last(), base) * base + s.last()
    }
}

/// For each of the `n` positions, how far the letter of `w` (or an absent
/// letter) is from `m`.
pub open spec fn headroom(w: Seq<u8>, n: nat, m: u8) -> Seq<nat> {
    Seq::new(n, |t: int| if t < w.len() { (m - w[t]) as nat } else { m as nat })
}

/// A measure of words of length at most `n` over `[0, m]` that drops
/// whenever the word grows in lexicographic order.
pub open spec fn distance_to_top(w: Seq<u8>, n: nat, m: u8) -> nat {
    digits_value(headroom(w, n, m), (m + 1) as nat) * (n + 1) + (n - w.len()) as nat
}

proof fn lemma_digits_lt(a: Seq<nat>, b: Seq<nat>, base: nat, d: int)
    requires
        a.len() == b.len(),
        0 <= d < a.len(),
        a[d] < b[d],
        forall|s: int| 0 <= s < d ==> a[s] == b[s],
        forall|t: int| 0 <= t < a.len() ==> a[t] < base,
    ensures
        digits_value(a, base) < digits_value(b, base),
    decreases a.len(),
{
    let l = a.len() - 1;
    let va = digits_value(a.drop_last(), base);
    let vb = digits_value(b.drop_last(), base);
    if d == l {
        assert(a.drop_last() =~= b.drop_last());
        assert(va * base + a.last() < vb * base + b.last());
    } else {
        lemma_digits_lt(a.drop_last(), b.drop_last(), base, d);
        let x = a.last();
        let y = b.last();
        assert(va * base + x < vb * base + y) by (nonlinear_arith)
            requires
                va + 1 <= vb,
                x < base,
        {
            assert((va + 1) * base <= vb * base);
        }
    }
}

proof fn lemma_digits_le(a: Seq<nat>, b: Seq<nat>, base: nat)
    requires
        a.len() == b.len(),
        forall|t: int| 0 <= t < a.len() ==> a[t] <= b[t],
    ensures
        digits_value(a, base) <= digits_value(b, base),
    decreases a.len(),
{
    if a.len() > 0 {
        lemma_digits_le(a.drop_last(), b.drop_last(), base);
        let va = digits_value(a.drop_last(), base);
        let vb = digits_value(b.drop_last(), base);
        assert(va * base <= vb * base) by (nonlinear_arith)
            requires
                va <= vb,
        {}
    }
}

/// A word that grows in lexicographic order lowers `distance_to_top`.
pub proof fn lemma_rank_decreases(a: Seq<u8>, b: Seq<u8>, n: nat, m: u8)
    requires
        lex_lt(a, b),
        a.len() <= n,
        b.len() <= n,
        letters_le(a, m),
        letters_le(b, m),
    ensures
        distance_to_top(b, n, m) < distance_to_top(a, n, m),
{
    let ha = headroom(a, n, m);
    let hb = headroom(b, n, m);
    let base = (m + 1) as nat;
    let va = digits_value(ha, base);
    let vb = digits_value(hb, base);
    if exists|d: int| first_diff_lt(a, b, d) {
        let d = choose|d: int| first_diff_lt(a, b, d);
        assert(a[d] <= m && b[d] <= m);
        lemma_digits_lt(hb, ha, base, d);
        let la = (n - a.len()) as nat;
        let lb = (n - b.len()) as nat;
        assert(vb * (n + 1) + lb < va * (n + 1) + la) by (nonlinear_arith)
            requires
                vb + 1 <= va,
                lb <= n,
        {
            assert((vb + 1) * (n + 1) <= va * (n + 1));
        }
    } else {
        assert forall|t: int| 0 <= t < n implies hb[t] <= ha[t] by {
            if t < b.len() {
                assert(b[t] <= m);
            }
        }
        lemma_digits_le(hb, ha, base);
        assert(vb * (n + 1) <= va * (n + 1)) by (nonlinear_arith)
            requires
                vb <= va,
        {}
    }
}

/// Lexicographic order is transitive.
pub proof fn lemma_lex_lt_transitive(a: Seq<u8>, b: Seq<u8>, c: Seq<u8>)
    requires
        lex_lt(a, b),
        lex_lt(b, c),
    ensures
        lex_lt(a, c),
{
    if exists|d: int| first_diff_lt(a, b, d) {
        let d1 = choose|d: int| first_diff_lt(a, b, d);
        if exists|d: int| first_diff_lt(b, c, d) {
            let d2 = choose|d: int| first_diff_lt(b, c, d);
            if d1 < d2 {
                assert(first_diff_lt(a, c, d1));
            } else {
                assert(first_diff_lt(a, c, d2));
            }
        } else {
            assert(first_diff_lt(a, c, d1));
        }
    } else {
        if exists|d: int| first_diff_lt(b, c, d) {
            let d2 = choose|d: int| first_diff_lt(b, c, d);
            if d2 < a.len() {
                assert(first_diff_lt(a, c, d2));
            } else {
                assert(forall|s: int| 0 <= s < a.len() ==> a[s] == c[s]);
            }
        } else {
            assert(forall|s: int| 0 <= s < a.len() ==> a[s] == c[s]);
        }
    }
}

/// Lexicographic order is asymmetric (hence irreflexive).
pub proof fn lemma_lex_lt_asymmetric(a: Seq<u8>, b: Seq<u8>)
    requires
        lex_lt(a, b),
    ensures
        !lex_lt(b, a),
{
    if lex_lt(b, a) {
        if exists|d: int| first_diff_lt(a, b, d) {
            let d1 = choose|d: int| first_diff_lt(a, b, d);
            if exists|d: int| first_diff_lt(b, a, d) {
                let d2 = choose|d: int| first_diff_lt(b, a, d);
                if d1 < d2 {
                    assert(b[d1] == a[d1]);
                } else if d2 < d1 {
                    assert(a[d2] == b[d2]);
                }
            } else {
                assert(b[d1] == a[d1]);
            }
        } else if exists|d: int| first_diff_lt(b, a, d) {
            let d2 = choose|d: int| first_diff_lt(b, a, d);
            assert(a[d2] == b[d2]);
        }
    }
}

/// A word with a border (a proper non-empty prefix that is also a suffix)
/// is not a Lyndon word.
pub proof fn lemma_bordered_not_lyndon(v: Seq<u8>, l: int)
    requires
        0 < l < v.len(),
        forall|s: int| 0 <= s < l ==> v[v.len() - l + s] == #[trigger] v[s],
    ensures
        !is_lyndon(v),
{
    if is_lyndon(v) {
        let n = v.len() as int;
        let q = n - l;
        let rq = rotate(v, q);
        let rl = rotate(v, l);
        assert(lex_lt(v, rq));
        assert(lex_lt(v, rl));
        // rotating by q brings the border to the front
        assert forall|t: int| 0 <= t < n implies #[trigger] rq[t] == if t < l {
            v[t]
        } else {
            v[t - l]
        } by {
            if t < l {
                vstd::arithmetic::div_mod::lemma_small_mod((q + t) as nat, n as nat);
                assert(v[q + t] == v[t]);
            } else {
                vstd::arithmetic::div_mod::lemma_mod_add_multiples_vanish(t - l, n);
                vstd::arithmetic::div_mod::lemma_small_mod((t - l) as nat, n as nat);
            }
        }
        assert forall|t: int| 0 <= t < n implies #[trigger] rl[t] == if t < q {
            v[l + t]
        } else {
            v[t]
        } by {
            if t < q {
                vstd::arithmetic::div_mod::lemma_small_mod((l + t) as nat, n as nat);
            } else {
                vstd::arithmetic::div_mod::lemma_mod_add_multiples_vanish(t - q, n);
                vstd::arithmetic::div_mod::lemma_small_mod((t - q) as nat, n as nat);
                assert(v[q + (t - q)] == v[t - q]);
            }
        }
        let d = choose|d: int| first_diff_lt(v, rq, d);
        let d2 = choose|d: int| first_diff_lt(v, rl, d);
        if d < l {
            assert(rq[d] == v[d]);
        }
        if d2 >= q {
            assert(rl[d2] == v[d2]);
        }
        let e = d - l;
        // rq: v[l + s] == v[s] for s < e, v[l + e] < v[e]
        // rl: v[s] == v[l + s] for s < d2, v[d2] < v[l + d2]
        assert(v[d] < rq[d]);
        assert(rq[d] == v[e]);
        if e < d2 {
            assert(v[e] == rl[e]);
            assert(rl[e] == v[l + e]);
        } else if d2 < e {
            assert(v[l + d2] == rq[l + d2]);
            assert(rq[l + d2] == v[d2]);
            assert(v[d2] < rl[d2]);
        } else {
            assert(v[d2] < rl[d2]);
        }
    }
}

} // verus!
