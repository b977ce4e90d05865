//! The order of Lyndon words: the successor steps of the generator skip no
//! Lyndon word, and its runs start and end where they should.
use vstd::prelude::*;
use crate::lyndon::{follows, is_exhausted, is_run, last_fixed};
use crate::words::{
    agree, bump, extend, first_diff_lt, is_lyndon, lemma_bordered_not_lyndon,
    lemma_extend_prenecklace, lemma_lex_lt_asymmetric, lemma_lex_lt_transitive,
    lemma_lyndon_not_constant, lemma_strip, lemma_strip_prefix, letters_le, lex_lt, rotate, smallest, strip, succ,
};

verus! {

/// A Lyndon word with two letters or more starts below the maximal letter.
proof fn lemma_lyndon_first_below(w: Seq<u8>, m: u8)
    requires
        is_lyndon(w),
        w.len() >= 2,
        letters_le(w, m),
    ensures
        w[0] < m,
{
    lemma_lyndon_not_constant(w, m);
    let t = choose|t: int| 0 <= t < w.len() && w[t] < m;
    if w[0] == m {
        let rw = rotate(w, t);
        assert(t != 0);
        assert(rw[0] == w[t]) by {
            vstd::arithmetic::div_mod::lemma_small_mod(t as nat, w.len());
        }
        assert(lex_lt(w, rw));
        let d = choose|d: int| first_diff_lt(w, rw, d);
        assert(d != 0);
        assert(w[0] == rw[0]);
    }
}

/// A Lyndon word of length `n` has no fixed-length successor exactly when
/// stripping its trailing maximal letters and raising the last letter left
/// makes its first letter maximal (or, for `n` = 1, when it is `[m]`).
pub(crate) proof fn lemma_last_fixed_is_exhausted(w: Seq<u8>, m: u8)
    requires
        is_lyndon(w),
        letters_le(w, m),
        m >= 1,
    ensures
        ((w.len() == 1 && w[0] == m) || (w.len() > 1 && succ(w, m)[0] == m)) == (w
            == last_fixed(w.len(), m)),
{
    let n = w.len();
    if n == 1 {
        if w[0] == m {
            assert(w =~= last_fixed(n, m));
        } else {
            assert(w[0] != last_fixed(n, m)[0]);
        }
    } else {
        lemma_lyndon_first_below(w, m);
        let st = strip(w, m);
        lemma_strip(w, m);
        let c = st.len();
        if c == 0 {
            assert(w[0] == m);
        }
        if succ(w, m)[0] == m {
            if c >= 2 {
                assert(succ(w, m)[0] == st[0]);
                assert(st[0] == w[0]);
            }
            assert(c == 1);
            assert(succ(w, m)[0] == w[0] + 1);
            assert(w =~= last_fixed(n, m));
        } else if w == last_fixed(n, m) {
            lemma_strip_prefix(w, m, 1);
            let w1 = w.subrange(0, 1);
            assert(w1.last() == (m - 1) as u8);
            assert(strip(w1, m) == w1);
            assert(succ(w, m)[0] == m);
        }
    }
}

/// A fixed-length run is strictly increasing, starts at the smallest
/// Lyndon word `0^(n-1) 1` (or `0`), and ends at `last_fixed(n, m)`: at
/// `m^n` when `n` is 1, at `(m-1) m^(n-1)` otherwise.
pub proof fn lemma_fixed_length_run(ws: Seq<Seq<u8>>, n: nat, m: u8)
    requires
        is_run(ws, n, m, true),
        ws[0] == smallest(n),
        n >= 1,
        m >= 1,
    ensures
        forall|i: int, j: int| 0 <= i < j < ws.len() ==> lex_lt(#[trigger] ws[i], #[trigger] ws[j]),
        ws[0] == smallest(n),
        ws.last() == last_fixed(n, m),
        n == 1 ==> ws.last() == Seq::new(n, |t: int| m),
{
    lemma_run_increasing(ws, n, m, true);
    assert(ws.last() == ws[ws.len() - 1]);
    if n == 1 {
        assert(ws.last() =~= Seq::new(n, |t: int| m));
    }
}

/// Each word of a run comes before every later one.
pub proof fn lemma_run_increasing(ws: Seq<Seq<u8>>, n: nat, m: u8, fixed_length: bool)
    requires
        is_run(ws, n, m, fixed_length),
    ensures
        forall|i: int, j: int| 0 <= i < j < ws.len() ==> lex_lt(#[trigger] ws[i], #[trigger] ws[j]),
{
    assert forall|i: int, j: int| 0 <= i < j < ws.len() implies lex_lt(
        #[trigger] ws[i],
        #[trigger] ws[j],
    ) by {
        lemma_run_increasing_from(ws, n, m, fixed_length, i, j);
    }
}

proof fn lemma_run_increasing_from(
    ws: Seq<Seq<u8>>,
    n: nat,
    m: u8,
    fixed_length: bool,
    i: int,
    j: int,
)
    requires
        is_run(ws, n, m, fixed_length),
        0 <= i < j < ws.len(),
    ensures
        lex_lt(ws[i], ws[j]),
    decreases j - i,
{
    assert(follows(ws[j - 1], ws[j], n, m, fixed_length));
    if i < j - 1 {
        lemma_run_increasing_from(ws, n, m, fixed_length, i, j - 1);
        lemma_lex_lt_transitive(ws[i], ws[j - 1], ws[j]);
    }
}

/// Every word of a run is a Lyndon word: no proper rotation of it is
/// smaller than it, or equal to it.
pub proof fn lemma_run_lyndon(ws: Seq<Seq<u8>>, n: nat, m: u8, fixed_length: bool)
    requires
        is_run(ws, n, m, fixed_length),
    ensures
        forall|i: int, r: int|
            0 <= i < ws.len() && 0 < r < ws[i].len() ==> !lex_lt(
                #[trigger] rotate(ws[i], r),
                ws[i],
            ) && rotate(ws[i], r) != ws[i],
{
    assert forall|i: int, r: int| 0 <= i < ws.len() && 0 < r < ws[i].len() implies !lex_lt(
        #[trigger] rotate(ws[i], r),
        ws[i],
    ) && rotate(ws[i], r) != ws[i] by {
        assert(is_lyndon(ws[i]));
        assert(lex_lt(ws[i], rotate(ws[i], r)));
        lemma_lex_lt_asymmetric(ws[i], rotate(ws[i], r));
        if rotate(ws[i], r) == ws[i] {
            lemma_lex_lt_asymmetric(ws[i], ws[i]);
        }
    }
}

/// The first position below `lim` where `u` and `x` differ, or `lim`.
proof fn common_prefix(u: Seq<u8>, x: Seq<u8>, t0: int, lim: int) -> (p: int)
    requires
        0 <= t0 <= lim,
        lim <= u.len(),
        lim <= x.len(),
        forall|s: int| 0 <= s < t0 ==> u[s] == x[s],
    ensures
        t0 <= p <= lim,
        forall|s: int| 0 <= s < p ==> u[s] == x[s],
        p < lim ==> u[p] != x[p],
    decreases lim - t0,
{
    if t0 == lim || u[t0] != x[t0] {
        t0
    } else {
        common_prefix(u, x, t0 + 1, lim)
    }
}

/// The bounded-length successor is the next Lyndon word: no Lyndon word of
/// length at most `n` over `[0, m]` lies strictly between a word and it.
pub proof fn lemma_bounded_successor_is_next(w: Seq<u8>, u: Seq<u8>, n: nat, m: u8)
    requires
        is_lyndon(w),
        w.len() <= n,
        letters_le(w, m),
        !is_exhausted(w, m, false),
        is_lyndon(u),
        u.len() <= n,
        letters_le(u, m),
        lex_lt(w, u),
    ensures
        u == succ(extend(w, n), m) || lex_lt(succ(extend(w, n), m), u),
{
    let x = extend(w, n);
    let lw = w.len() as int;
    lemma_strip(x, m);
    let c = strip(x, m).len() as int;
    // x holds a letter below m, so c >= 1
    if w.len() >= 2 {
        lemma_lyndon_not_constant(w, m);
    }
    let wit = choose|t: int| 0 <= t < w.len() && w[t] < m;
    assert(x[wit] == w[wit]) by {
        vstd::arithmetic::div_mod::lemma_small_mod(wit as nat, lw as nat);
    }
    assert(c >= 1);
    assert forall|t: int| 0 <= t < lw implies x[t] == w[t] by {
        vstd::arithmetic::div_mod::lemma_small_mod(t as nat, lw as nat);
    }
    let p = common_prefix(u, x, 0, u.len() as int);
    if p == u.len() {
        lemma_not_prefix_of_extension(w, u, n);
    } else if u[p] < x[p] {
        lemma_not_below_extension(w, u, n, p);
    } else {
        lemma_above_extension(x, u, m, p);
    }
}

/// In a Lyndon word, where a factor agrees with the prefix of its length,
/// the next letter of the factor is at least the next letter of the prefix.
proof fn lemma_lyndon_prefix_order(u: Seq<u8>, j: int, t: int)
    requires
        is_lyndon(u),
        0 < j,
        0 <= t,
        j + t < u.len(),
        agree(u, j, t),
    ensures
        u[j + t] >= u[t],
{
    lemma_extend_prenecklace(u, u.len());
    assert(extend(u, u.len()) =~= u) by {
        assert forall|s: int| 0 <= s < u.len() implies extend(u, u.len())[s] == u[s] by {
            vstd::arithmetic::div_mod::lemma_small_mod(s as nat, u.len());
        }
    }
}

/// A word above the Lyndon word `w` that is a prefix of `w` repeated is no
/// Lyndon word.
proof fn lemma_not_prefix_of_extension(w: Seq<u8>, u: Seq<u8>, n: nat)
    requires
        is_lyndon(w),
        u.len() <= n,
        lex_lt(w, u),
        forall|s: int| 0 <= s < u.len() ==> u[s] == extend(w, n)[s],
    ensures
        !is_lyndon(u),
{
    if is_lyndon(u) {
        let x = extend(w, n);
        let lw = w.len() as int;
        assert forall|t: int| 0 <= t < lw && t < n implies x[t] == w[t] by {
            vstd::arithmetic::div_mod::lemma_small_mod(t as nat, lw as nat);
        }
        if u.len() <= lw {
            if u.len() == lw {
                assert(u =~= w);
                lemma_lex_lt_asymmetric(w, w);
            } else {
                assert(lex_lt(u, w));
                lemma_lex_lt_asymmetric(w, u);
            }
        } else {
            let l = u.len() - lw;
            assert forall|s: int| 0 <= s < l implies u[u.len() - l + s] == #[trigger] u[s] by {
                vstd::arithmetic::div_mod::lemma_mod_add_multiples_vanish(s, lw);
                assert(x[lw + s] == x[s]);
            }
            lemma_bordered_not_lyndon(u, l);
        }
    }
}

/// A word above the Lyndon word `w` that is below `w` repeated, where they
/// first differ, is no Lyndon word.
proof fn lemma_not_below_extension(w: Seq<u8>, u: Seq<u8>, n: nat, p: int)
    requires
        is_lyndon(w),
        lex_lt(w, u),
        0 <= p < u.len(),
        p < n,
        forall|s: int| 0 <= s < p ==> u[s] == extend(w, n)[s],
        u[p] < extend(w, n)[p],
    ensures
        !is_lyndon(u),
{
    if is_lyndon(u) {
        let x = extend(w, n);
        let lw = w.len() as int;
        assert forall|t: int| 0 <= t < lw && t < n implies x[t] == w[t] by {
            vstd::arithmetic::div_mod::lemma_small_mod(t as nat, lw as nat);
        }
        if p < lw {
            assert(first_diff_lt(u, w, p));
            lemma_lex_lt_asymmetric(w, u);
        } else {
            let t = p - lw;
            assert forall|s: int| 0 <= s < t implies #[trigger] u[lw + s] == u[s] by {
                vstd::arithmetic::div_mod::lemma_mod_add_multiples_vanish(s, lw);
                assert(x[lw + s] == x[s]);
            }
            lemma_lyndon_prefix_order(u, lw, t);
            vstd::arithmetic::div_mod::lemma_mod_add_multiples_vanish(t, lw);
            assert(x[p] == x[t]);
        }
    }
}

/// A word above `x` where they first differ is at least `succ(x, m)`.
proof fn lemma_above_extension(x: Seq<u8>, u: Seq<u8>, m: u8, p: int)
    requires
        letters_le(u, m),
        strip(x, m).len() >= 1,
        0 <= p < u.len(),
        p < x.len(),
        forall|s: int| 0 <= s < p ==> u[s] == x[s],
        u[p] > x[p],
    ensures
        u == succ(x, m) || lex_lt(succ(x, m), u),
{
    lemma_strip(x, m);
    let c = strip(x, m).len() as int;
    let y = succ(x, m);
    if p < c - 1 {
        assert(first_diff_lt(y, u, p));
    } else if p == c - 1 {
        if y[p] < u[p] {
            assert(first_diff_lt(y, u, p));
        } else if u.len() == c {
            assert(u =~= y);
        } else {
            assert(forall|s: int| 0 <= s < y.len() ==> y[s] == u[s]);
        }
    } else {
        assert(x[p] == m);
        assert(u[p] <= m);
    }
}

/// Nothing follows `[m]`, and `[0]` comes first: every Lyndon word over
/// `[0, m]` is at least `[0]`, and none is above `[m]`.
pub proof fn lemma_bounded_ends(u: Seq<u8>, m: u8)
    requires
        is_lyndon(u),
        letters_le(u, m),
    ensures
        u == seq![0u8] || lex_lt(seq![0u8], u),
        !lex_lt(seq![m], u),
{
    let z = seq![0u8];
    if u[0] > 0 {
        assert(first_diff_lt(z, u, 0));
    } else if u.len() == 1 {
        assert(u =~= z);
    } else {
        assert(forall|s: int| 0 <= s < z.len() ==> z[s] == u[s]);
    }
    let top = seq![m];
    if lex_lt(top, u) {
        if exists|d: int| first_diff_lt(top, u, d) {
            let d = choose|d: int| first_diff_lt(top, u, d);
            assert(u[0] <= m);
        } else {
            assert(u[0] == m);
            lemma_lyndon_first_below(u, m);
        }
    }
}

/// A bounded-length run from `[0]` lists every Lyndon word of length at
/// most `n` over `[0, m]`, each once, in increasing order.
pub proof fn lemma_bounded_run_complete(ws: Seq<Seq<u8>>, n: nat, m: u8, u: Seq<u8>)
    requires
        is_run(ws, n, m, false),
        ws[0] == seq![0u8],
        is_lyndon(u),
        u.len() <= n,
        letters_le(u, m),
    ensures
        exists|i: int| 0 <= i < ws.len() && ws[i] == u,
        forall|i: int, j: int| 0 <= i < j < ws.len() ==> lex_lt(#[trigger] ws[i], #[trigger] ws[j]),
{
    lemma_run_increasing(ws, n, m, false);
    lemma_bounded_ends(u, m);
    let i = last_not_above(ws, n, m, false, u, 0);
    if ws[i] != u {
        if i == ws.len() - 1 {
            assert(ws.last() == ws[i]);
            let w = ws[i];
            assert(w.len() == 1 && w[0] == m);
            assert(w =~= seq![m]);
        } else {
            assert(follows(ws[i], ws[i + 1], n, m, false));
            lemma_bounded_successor_is_next(ws[i], u, n, m);
            if ws[i + 1] != u {
                lemma_lex_lt_asymmetric(ws[i + 1], u);
            }
        }
    }
}

/// The last index from `i0` on whose word is at most `u`.
proof fn last_not_above(
    ws: Seq<Seq<u8>>,
    n: nat,
    m: u8,
    fixed_length: bool,
    u: Seq<u8>,
    i0: int,
) -> (i: int)
    requires
        is_run(ws, n, m, fixed_length),
        0 <= i0 < ws.len(),
        ws[i0] == u || lex_lt(ws[i0], u),
    ensures
        i0 <= i < ws.len(),
        ws[i] == u || lex_lt(ws[i], u),
        i + 1 < ws.len() ==> !(ws[i + 1] == u || lex_lt(ws[i + 1], u)),
    decreases ws.len() - i0,
{
    if i0 + 1 < ws.len() && (ws[i0 + 1] == u || lex_lt(ws[i0 + 1], u)) {
        last_not_above(ws, n, m, fixed_length, u, i0 + 1)
    } else {
        i0
    }
}

/// No Lyndon word of length `n` over `[0, m]` lies strictly between `w`
/// and `v`.
pub open spec fn next_of_length(w: Seq<u8>, v: Seq<u8>, n: nat, m: u8) -> bool {
    forall|u: Seq<u8>|
        is_lyndon(u) && u.len() == n && letters_le(u, m) && #[trigger] lex_lt(w, u) ==> u == v
            || lex_lt(v, u)
}

/// Moving from `cur` to its bounded-length successor skips no Lyndon word.
pub(crate) proof fn lemma_bounded_step_no_gap(w: Seq<u8>, cur: Seq<u8>, n: nat, m: u8)
    requires
        next_of_length(w, cur, n, m),
        is_lyndon(cur),
        cur.len() < n || cur == w,
        cur.len() <= n,
        letters_le(cur, m),
        !is_exhausted(cur, m, false),
    ensures
        next_of_length(w, succ(extend(cur, n), m), n, m),
{
    assert forall|u: Seq<u8>|
        is_lyndon(u) && u.len() == n && letters_le(u, m) && #[trigger] lex_lt(w, u) implies u
        == succ(extend(cur, n), m) || lex_lt(succ(extend(cur, n), m), u) by {
        if u == cur {
            if cur == w {
                lemma_lex_lt_asymmetric(w, u);
            }
        } else {
            lemma_bounded_successor_is_next(cur, u, n, m);
        }
    }
}

/// A word of length `n` that starts with `u` repeated up to `e + d`, where
/// `u[d..n-e]` holds only the letter `m`, is no Lyndon word: it would end
/// with its own prefix of length `n - e`.
proof fn lemma_tiled_not_lyndon(u: Seq<u8>, v: Seq<u8>, n: nat, m: u8, d: int)
    requires
        v.len() == n,
        letters_le(v, m),
        u.len() >= 1,
        1 <= d,
        u.len() + d <= n,
        n - u.len() <= u.len(),
        forall|t: int| 0 <= t < u.len() + d ==> v[t] == extend(u, (u.len() + d) as nat)[t],
        forall|t: int| d <= t < n - u.len() ==> u[t] == m,
    ensures
        !is_lyndon(v),
{
    if is_lyndon(v) {
        let e = u.len() as int;
        let x = extend(u, (e + d) as nat);
        assert forall|t: int| 0 <= t < e implies #[trigger] x[t] == u[t] by {
            vstd::arithmetic::div_mod::lemma_small_mod(t as nat, e as nat);
        }
        lemma_tiled_border(u, v, n, m, d, n - e);
        assert forall|s: int| 0 <= s < n - e implies v[n - (n - e) + s] == #[trigger] v[s] by {
            assert(agree(v, e, n - e));
        }
        lemma_bordered_not_lyndon(v, n - e);
    }
}

proof fn lemma_tiled_border(u: Seq<u8>, v: Seq<u8>, n: nat, m: u8, d: int, t: int)
    requires
        is_lyndon(v),
        v.len() == n,
        letters_le(v, m),
        u.len() >= 1,
        1 <= d,
        u.len() + d <= n,
        n - u.len() <= u.len(),
        0 <= t <= n - u.len(),
        forall|s: int| 0 <= s < u.len() + d ==> v[s] == extend(u, (u.len() + d) as nat)[s],
        forall|s: int| 0 <= s < u.len() ==> #[trigger] extend(u, (u.len() + d) as nat)[s] == u[s],
        forall|s: int| d <= s < n - u.len() ==> u[s] == m,
    ensures
        agree(v, u.len() as int, t),
    decreases t,
{
    let e = u.len() as int;
    let x = extend(u, (e + d) as nat);
    if t > 0 {
        lemma_tiled_border(u, v, n, m, d, t - 1);
        let s = t - 1;
        if s < d {
            vstd::arithmetic::div_mod::lemma_mod_add_multiples_vanish(s, e);
            vstd::arithmetic::div_mod::lemma_small_mod(s as nat, e as nat);
            assert(v[e + s] == x[e + s]);
            assert(v[s] == x[s]);
        } else {
            lemma_lyndon_prefix_order(v, e, s);
            assert(v[s] == x[s]);
            assert(v[s] == m);
            assert(v[e + s] <= m);
        }
        assert forall|r: int| 0 <= r < t implies #[trigger] v[e + r] == v[r] by {
            if r < s {
                assert(agree(v, e, s));
            }
        }
    }
}

/// Tiling the raised block after `cur` skips no Lyndon word of length `n`.
pub(crate) proof fn lemma_tile_step_no_gap(w: Seq<u8>, cur: Seq<u8>, n: nat, m: u8, d: int)
    requires
        next_of_length(w, cur, n, m),
        is_lyndon(cur),
        letters_le(cur, m),
        1 <= d <= cur.len(),
        cur.len() + d <= n,
        n - cur.len() <= cur.len(),
        cur[d - 1] < m,
        forall|t: int| d <= t < n - cur.len() ==> cur[t] == m,
    ensures
        next_of_length(w, bump(extend(cur, (cur.len() + d) as nat)), n, m),
{
    let e = cur.len() as int;
    let nn = (e + d) as nat;
    let x = extend(cur, nn);
    let y = bump(x);
    assert(x.last() == cur[d - 1]) by {
        vstd::arithmetic::div_mod::lemma_mod_add_multiples_vanish(d - 1, e);
        vstd::arithmetic::div_mod::lemma_small_mod((d - 1) as nat, e as nat);
    }
    assert(strip(x, m) == x);
    assert forall|u: Seq<u8>|
        is_lyndon(u) && u.len() == n && letters_le(u, m) && #[trigger] lex_lt(w, u) implies u
        == y || lex_lt(y, u) by {
        assert(u == cur || lex_lt(cur, u));
        if u != cur {
            let p = common_prefix(u, x, 0, nn as int);
            if p == nn {
                if n == nn {
                    lemma_not_prefix_of_extension(cur, u, nn);
                } else {
                    lemma_tiled_not_lyndon(cur, u, n, m, d);
                }
            } else if u[p] < x[p] {
                lemma_not_below_extension(cur, u, nn, p);
            } else {
                lemma_above_extension(x, u, m, p);
            }
        }
    }
}

/// Every Lyndon word of length `n >= 1` over `[0, m]` is at least `smallest(n)`,
/// and none is above `last_fixed(n, m)`.
pub proof fn lemma_fixed_ends(u: Seq<u8>, n: nat, m: u8)
    requires
        is_lyndon(u),
        u.len() == n,
        letters_le(u, m),
        m >= 1,
    ensures
        u == smallest(n) || lex_lt(smallest(n), u),
        !lex_lt(last_fixed(n, m), u),
{
    let z = smallest(n);
    let zero = common_prefix(u, Seq::new(n, |t: int| 0u8), 0, n as int);
    if zero < n - 1 {
        assert(first_diff_lt(z, u, zero));
    } else if zero == n - 1 {
        if n == 1 {
            assert(first_diff_lt(z, u, 0));
        } else if u[n - 1] == 1 {
            assert(u =~= z);
        } else {
            assert(first_diff_lt(z, u, n - 1));
        }
    } else {
        // a constant word of two letters or more is no Lyndon word
        if n >= 2 {
            lemma_lyndon_not_constant(u, 0);
        }
        if n == 1 {
            assert(u =~= z);
        }
    }
    let top = last_fixed(n, m);
    if lex_lt(top, u) {
        let d = choose|d: int| first_diff_lt(top, u, d);
        if d > 0 {
            assert(u[d] <= m);
        } else if n >= 2 {
            lemma_lyndon_first_below(u, m);
        }
    }
}

/// A fixed-length run from `smallest(n)` lists every Lyndon word of length
/// `n` over `[0, m]`, each once, in increasing order.
pub proof fn lemma_fixed_run_complete(ws: Seq<Seq<u8>>, n: nat, m: u8, u: Seq<u8>)
    requires
        is_run(ws, n, m, true),
        ws[0] == smallest(n),
        n >= 1,
        m >= 1,
        is_lyndon(u),
        u.len() == n,
        letters_le(u, m),
    ensures
        exists|i: int| 0 <= i < ws.len() && ws[i] == u,
        forall|i: int, j: int| 0 <= i < j < ws.len() ==> lex_lt(#[trigger] ws[i], #[trigger] ws[j]),
{
    lemma_run_increasing(ws, n, m, true);
    lemma_fixed_ends(u, n, m);
    let i = last_not_above(ws, n, m, true, u, 0);
    if ws[i] != u {
        if i == ws.len() - 1 {
            lemma_fixed_length_run(ws, n, m);
        } else {
            assert(follows(ws[i], ws[i + 1], n, m, true));
            assert(lex_lt(ws[i], u));
            if ws[i + 1] != u {
                lemma_lex_lt_asymmetric(ws[i + 1], u);
            }
        }
    }
}

} // verus!
