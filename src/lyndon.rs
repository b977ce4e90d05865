//! Generation of Lyndon words in increasing lexicographic order (Duval's
//! successor algorithms), of one fixed length or of every length up to a bound.
use vstd::prelude::*;
use crate::words::{
    Letter, Word, distance_to_top, extend, first_diff_lt, is_lyndon, lemma_bump_lyndon,
    lemma_extend_prenecklace, lemma_lyndon_not_constant, lemma_prenecklace_prefix,
    lemma_rank_decreases, lemma_smallest_lyndon, lemma_strip_prefix, letters_le, lex_lt, rotate,
    smallest, strip, bump, succ, words_view,
};
use crate::lyndon_order::{
    lemma_bounded_step_no_gap, lemma_last_fixed_is_exhausted, lemma_tile_step_no_gap,
    next_of_length,
};

verus! {

/// The generator's state: a buffer of capacity `vec.len()` whose first `len`
/// letters form the current Lyndon word over `[0, max_letter]`.
#[derive(Debug)]
pub struct LyndonWord {
    pub vec: Vec<Letter>,
    pub len: usize,
    pub max_letter: Letter,
}

/// The last word of a fixed-length run of length `n` over `[0, m]`:
/// `[m]` when `n` is 1, else `m - 1` followed by `n - 1` letters `m`.
pub open spec fn last_fixed(n: nat, m: u8) -> Seq<u8> {
    Seq::new(n, |t: int| if n > 1 && t == 0 { (m - 1) as u8 } else { m })
}

/// The last word of a run: the largest Lyndon word of its mode, `[m]` in
/// bounded-length mode, `last_fixed` in fixed-length mode.
pub open spec fn is_exhausted(w: Seq<u8>, m: u8, fixed_length: bool) -> bool {
    if fixed_length {
        w == last_fixed(w.len(), m)
    } else {
        w.len() == 1 && w[0] == m
    }
}

/// `v` is the word that the generator produces after `w`.
pub open spec fn follows(w: Seq<u8>, v: Seq<u8>, n: nat, m: u8, fixed_length: bool) -> bool {
    &&& lex_lt(w, v)
    &&& if fixed_length {
        &&& v.len() == n
        &&& succ(w, m).len() <= n
        &&& v.subrange(0, succ(w, m).len() as int) == succ(w, m)
        &&& next_of_length(w, v, n, m)
    } else {
        v == succ(extend(w, n), m)
    }
}

/// `ws` is a complete run of the generator of capacity `n` over `[0, m]`:
/// Lyndon words, each followed by its successor, up to an exhausted one.
pub open spec fn is_run(ws: Seq<Seq<u8>>, n: nat, m: u8, fixed_length: bool) -> bool {
    &&& ws.len() >= 1
    &&& forall|i: int|
        0 <= i < ws.len() ==> {
            &&& is_lyndon(#[trigger] ws[i])
            &&& letters_le(ws[i], m)
            &&& ws[i].len() <= n
            &&& fixed_length ==> ws[i].len() == n
        }
    &&& forall|i: int|
        0 <= i < ws.len() - 1 ==> {
            &&& !is_exhausted(#[trigger] ws[i], m, fixed_length)
            &&& follows(ws[i], ws[i + 1], n, m, fixed_length)
        }
    &&& is_exhausted(ws.last(), m, fixed_length)
}

impl LyndonWord {
    /// The current word.
    pub open spec fn word(&self) -> Seq<u8> {
        self.vec@.subrange(0, self.len as int)
    }

    /// The buffer is not empty, the current word lies in it, its letters
    /// are at most `max_letter` (at least 1), and it is a Lyndon word.
    pub open spec fn wf(&self) -> bool {
        &&& self.vec.len() >= 1
        &&& 1 <= self.len <= self.vec.len()
        &&& self.max_letter >= 1
        &&& letters_le(self.vec@, self.max_letter)
        &&& is_lyndon(self.word())
    }

    /// A copy of the current word.
    pub fn get_word(&self) -> (r: Word)
        requires
            self.len <= self.vec.len(),
        ensures
            r@ == self.word(),
    {
        let mut r: Word = Vec::with_capacity(self.len);
        let mut t: usize = 0;
        while t < self.len
            invariant
                self.len <= self.vec.len(),
                t <= self.len,
                r@ =~= self.vec@.subrange(0, t as int),
            decreases self.len - t,
        {
            r.push(self.vec[t]);
            t = t + 1;
        }
        r
    }

    /// The generator of capacity `len` over `[0, max_letter]`, at the
    /// smallest Lyndon word of length `len`.
    pub fn new_smallest(len: usize, max_letter: Letter) -> (r: Self)
        requires
            len >= 1,
            max_letter >= 1,
        ensures
            r.wf(),
            r.vec.len() == len,
            r.len == len,
            r.max_letter == max_letter,
            r.word() == smallest(len as nat),
    {
        let mut vec: Vec<Letter> = Vec::with_capacity(len);
        let mut t: usize = 0;
        while t < len
            invariant
                t <= len,
                len >= 1,
                vec@ =~= smallest(len as nat).subrange(0, t as int),
            decreases len - t,
        {
            if len > 1 && t == len - 1 {
                vec.push(1);
            } else {
                vec.push(0);
            }
            t = t + 1;
        }
        proof {
            lemma_smallest_lyndon(len as nat);
            assert(vec@ =~= smallest(len as nat));
            assert(vec@.subrange(0, len as int) =~= vec@);
        }
        LyndonWord { vec, len, max_letter }
    }

    /// Starts the enumeration: of the words of length exactly the capacity
    /// when `fixed_length`, else of every length up to it, from `[vec[0]]`.
    pub fn iter(self, fixed_length: bool) -> (r: LyndonWordIter)
        requires
            self.wf(),
            fixed_length ==> self.len == self.vec.len(),
        ensures
            r.wf(),
            r.fixed_length == fixed_length,
            !r.stop_on_next_call,
            r.lw.vec == self.vec,
            r.lw.max_letter == self.max_letter,
            fixed_length ==> r.lw.len == self.len,
            !fixed_length ==> r.lw.len == 1,
    {
        let mut lw = self;
        if !fixed_length {
            lw.len = 1;
            proof {
                let w = lw.word();
                assert(is_lyndon(w)) by {
                    assert forall|r: int| 0 < r < w.len() implies #[trigger] lex_lt(
                        w,
                        rotate(w, r),
                    ) by {}
                }
            }
        }
        LyndonWordIter { lw, fixed_length, stop_on_next_call: false }
    }
}

/// A pull-based enumeration of Lyndon words; once exhausted it stays so.
pub struct LyndonWordIter {
    pub lw: LyndonWord,
    pub fixed_length: bool,
    pub stop_on_next_call: bool,
}

impl LyndonWordIter {
    /// A well-formed generator, whose word has full length in fixed-length mode.
    pub open spec fn wf(&self) -> bool {
        &&& self.lw.wf()
        &&& self.fixed_length ==> self.lw.len == self.lw.vec.len()
    }

    /// Decreases at each word handed out.
    pub open spec fn rank(&self) -> nat {
        if self.stop_on_next_call {
            0
        } else {
            distance_to_top(self.lw.word(), self.lw.vec.len() as nat, self.lw.max_letter) + 1
        }
    }

    /// Hands out the current word and moves to its successor, or reports
    /// the end of the enumeration.
    pub fn next(&mut self) -> (r: Option<Word>)
        requires
            old(self).wf(),
        ensures
            final(self).wf(),
            final(self).fixed_length == old(self).fixed_length,
            final(self).lw.vec.len() == old(self).lw.vec.len(),
            final(self).lw.max_letter == old(self).lw.max_letter,
            final(self).rank() < old(self).rank() || old(self).stop_on_next_call,
            old(self).stop_on_next_call ==> r.is_none() && *final(self) == *old(self),
            !old(self).stop_on_next_call ==> {
                let w = old(self).lw.word();
                let n = old(self).lw.vec.len() as nat;
                let m = old(self).lw.max_letter;
                &&& r.is_some()
                &&& r.unwrap()@ == w
                &&& final(self).stop_on_next_call == is_exhausted(w, m, old(self).fixed_length)
                &&& !final(self).stop_on_next_call ==> follows(
                    w,
                    final(self).lw.word(),
                    n,
                    m,
                    old(self).fixed_length,
                )
            },
    {
        if self.stop_on_next_call {
            return None;
        }
        let word = self.lw.get_word();
        let advanced = if self.fixed_length {
            next_fllw(&mut self.lw)
        } else {
            next_bllw(&mut self.lw)
        };
        if !advanced {
            self.stop_on_next_call = true;
        } else {
            proof {
                lemma_rank_decreases(
                    word@,
                    self.lw.word(),
                    self.lw.vec.len() as nat,
                    self.lw.max_letter,
                );
            }
        }
        Some(word)
    }

    /// Every word that remains, in the order of generation.
    pub fn collect(self) -> (r: Vec<Word>)
        requires
            self.wf(),
        ensures
            self.stop_on_next_call ==> r.len() == 0,
            !self.stop_on_next_call ==> {
                &&& is_run(
                    words_view(r@),
                    self.lw.vec.len() as nat,
                    self.lw.max_letter,
                    self.fixed_length,
                )
                &&& r@[0]@ == self.lw.word()
            },
    {
        let ghost n = self.lw.vec.len() as nat;
        let ghost m = self.lw.max_letter;
        let ghost fixed = self.fixed_length;
        let ghost start = self.stop_on_next_call;
        let mut it = self;
        let mut out: Vec<Word> = Vec::new();
        while !it.stop_on_next_call
            invariant
                it.wf(),
                it.lw.vec.len() == n,
                it.lw.max_letter == m,
                it.fixed_length == fixed,
                start ==> it.stop_on_next_call && out.len() == 0,
                !start && out.len() == 0 ==> !it.stop_on_next_call && it.lw.word()
                    == self.lw.word(),
                !start && out.len() >= 1 ==> out@[0]@ == self.lw.word(),
                forall|i: int|
                    0 <= i < out.len() ==> {
                        &&& is_lyndon(#[trigger] out@[i]@)
                        &&& letters_le(out@[i]@, m)
                        &&& out@[i]@.len() <= n
                        &&& fixed ==> out@[i]@.len() == n
                    },
                forall|i: int|
                    0 <= i < out.len() - 1 ==> {
                        &&& !is_exhausted(#[trigger] out@[i]@, m, fixed)
                        &&& follows(out@[i]@, out@[i + 1]@, n, m, fixed)
                    },
                out.len() >= 1 && !it.stop_on_next_call ==> {
                    &&& !is_exhausted(out@[out.len() - 1]@, m, fixed)
                    &&& follows(out@[out.len() - 1]@, it.lw.word(), n, m, fixed)
                },
                out.len() >= 1 && it.stop_on_next_call ==> is_exhausted(
                    out@[out.len() - 1]@,
                    m,
                    fixed,
                ),
            decreases it.rank(),
        {
            let w = it.next();
            match w {
                Some(w) => {
                    out.push(w);
                },
                None => {},
            }
        }
        proof {
            let ws = words_view(out@);
            if !start {
                assert forall|i: int| 0 <= i < ws.len() implies ws[i] == out@[i]@ by {}
            }
        }
        out
    }
}

/// Position just after the last letter below `m` in `v[0..end]`.
fn last_below_max(v: &Vec<Letter>, m: Letter, end: usize, Ghost(wit): Ghost<int>) -> (c: usize)
    requires
        0 <= wit < end <= v.len(),
        v@[wit] < m,
    ensures
        wit < c <= end,
        v@[c - 1] != m,
        forall|t: int| c <= t < end ==> v@[t] == m,
{
    let mut c: usize = end;
    while v[c - 1] == m
        invariant
            0 <= wit < c <= end <= v.len(),
            v@[wit] < m,
            forall|t: int| c <= t < end ==> v@[t] == m,
        decreases c,
    {
        c = c - 1;
    }
    c
}

/// Copies `v[src..src+len]` onto `v[dst..dst+len]`, with `src + len <= dst`.
fn copy_block(v: &mut Vec<Letter>, src: usize, dst: usize, len: usize)
    requires
        src + len <= dst,
        dst + len <= old(v).len(),
    ensures
        final(v).len() == old(v).len(),
        forall|t: int|
            0 <= t < old(v).len() ==> #[trigger] final(v)@[t] == if dst <= t < dst + len {
                old(v)@[t - dst + src]
            } else {
                old(v)@[t]
            },
{
    let mut j: usize = 0;
    while j < len
        invariant
            src + len <= dst,
            dst + len <= v.len(),
            v.len() == old(v).len(),
            j <= len,
            forall|t: int|
                0 <= t < v.len() ==> #[trigger] v@[t] == if dst <= t < dst + j {
                    old(v)@[t - dst + src]
                } else {
                    old(v)@[t]
                },
        decreases len - j,
    {
        let x = v[src + j];
        v.set(dst + j, x);
        j = j + 1;
    }
}

/// Repeats `v[0..period]` from `from` up to the end of `v`, where `v[0..from]`
/// already repeats it.
fn fill_periodic(v: &mut Vec<Letter>, from: usize, Ghost(period): Ghost<int>)
    requires
        1 <= period <= from <= old(v).len(),
        from as int % period == 0,
        forall|t: int| 0 <= t < from ==> #[trigger] old(v)@[t] == old(v)@[t % period],
    ensures
        final(v)@ == extend(old(v)@.subrange(0, period), old(v).len() as nat),
{
    let n = v.len();
    let ghost u = v@.subrange(0, period);
    let mut j: usize = 0;
    while j < n - from
        invariant
            n == v.len(),
            1 <= period <= from <= n,
            from as int % period == 0,
            j <= n - from,
            u == v@.subrange(0, period),
            forall|t: int| 0 <= t < from + j ==> #[trigger] v@[t] == v@[t % period],
        decreases n - from - j,
    {
        let x = v[j];
        proof {
            vstd::arithmetic::div_mod::lemma_fundamental_div_mod(from as int, period);
            vstd::arithmetic::div_mod::lemma_mod_multiples_vanish(
                from as int / period,
                j as int,
                period,
            );
            vstd::arithmetic::div_mod::lemma_mod_twice(j as int, period);
            assert(v@[j as int] == v@[j as int % period]);
        }
        v.set(from + j, x);
        proof {
            assert(v@.subrange(0, period) =~= u);
            assert forall|t: int| 0 <= t < from + j + 1 implies #[trigger] v@[t] == v@[t
                % period] by {
                vstd::arithmetic::div_mod::lemma_mod_bound(t, period);
                vstd::arithmetic::div_mod::lemma_mod_twice(t, period);
            }
        }
        j = j + 1;
    }
    proof {
        assert forall|t: int| 0 <= t < n implies v@[t] == extend(u, n as nat)[t] by {
            vstd::arithmetic::div_mod::lemma_mod_bound(t, period);
        }
        assert(v@ =~= extend(u, n as nat));
    }
}

/// Raises the letter at `c - 1` of a buffer that reads a Lyndon word
/// cyclically: its first `c` letters then form a Lyndon word.
fn raise_at(v: &mut Vec<Letter>, m: Letter, c: usize, Ghost(u): Ghost<Seq<u8>>)
    requires
        1 <= c <= old(v).len(),
        is_lyndon(u),
        old(v)@ == extend(u, old(v).len() as nat),
        old(v)@[c - 1] < m,
        forall|t: int| c <= t < old(v).len() ==> old(v)@[t] == m,
    ensures
        final(v).len() == old(v).len(),
        final(v)@ == old(v)@.update(c - 1, (old(v)@[c - 1] + 1) as u8),
        final(v)@.subrange(0, c as int) == succ(old(v)@, m),
        is_lyndon(final(v)@.subrange(0, c as int)),
{
    let ghost x = v@;
    proof {
        lemma_strip_prefix(x, m, c as int);
        let xc = x.subrange(0, c as int);
        assert(strip(xc, m) == xc);
        lemma_extend_prenecklace(u, x.len());
        lemma_prenecklace_prefix(x, c as int);
        lemma_bump_lyndon(xc);
    }
    let y = v[c - 1] + 1;
    v.set(c - 1, y);
    proof {
        assert(v@.subrange(0, c as int) =~= bump(x.subrange(0, c as int)));
    }
}

/// A word that agrees with `w` before `c - 1` and is larger at `c - 1`
/// follows `w`.
proof fn lemma_raised_is_larger(w: Seq<u8>, y: Seq<u8>, c: int)
    requires
        1 <= c <= y.len(),
        c <= w.len(),
        forall|s: int| 0 <= s < c - 1 ==> w[s] == y[s],
        w[c - 1] < y[c - 1],
    ensures
        lex_lt(w, y),
{
    assert(first_diff_lt(w, y, c - 1));
}

/// Bounded-length successor: the current word repeated up to the capacity,
/// stripped of its trailing maximal letters, its last letter raised.
#[verifier::rlimit(40)]
fn next_bllw(lw: &mut LyndonWord) -> (advanced: bool)
    requires
        old(lw).wf(),
    ensures
        advanced == !(old(lw).len == 1 && old(lw).vec@[0] == old(lw).max_letter),
        !advanced ==> *final(lw) == *old(lw),
        advanced ==> {
            &&& final(lw).wf()
            &&& final(lw).vec.len() == old(lw).vec.len()
            &&& final(lw).max_letter == old(lw).max_letter
            &&& final(lw).word() == succ(
                extend(old(lw).word(), old(lw).vec.len() as nat),
                old(lw).max_letter,
            )
            &&& lex_lt(old(lw).word(), final(lw).word())
        },
{
    let n = lw.vec.len();
    let i = lw.len;
    let m = lw.max_letter;
    let ghost w = lw.word();

    if i == 1 && lw.vec[0] == m {
        return false;
    }
    proof {
        if w.len() >= 2 {
            lemma_lyndon_not_constant(w, m);
        } else {
            assert(w[0] < m);
        }
    }
    let ghost wit = choose|t: int| 0 <= t < w.len() && w[t] < m;

    // Repeat the word cyclically up to the end of the buffer
    proof {
        assert forall|t: int| 0 <= t < i implies #[trigger] lw.vec@[t] == lw.vec@[t % (i as int)] by {
            vstd::arithmetic::div_mod::lemma_small_mod(t as nat, i as nat);
        }
        vstd::arithmetic::div_mod::lemma_mod_self_0(i as int);
    }
    fill_periodic(&mut lw.vec, i, Ghost(i as int));
    let ghost x = lw.vec@;
    proof {
        assert(w =~= old(lw).vec@.subrange(0, i as int));
        assert(x[wit] < m) by {
            vstd::arithmetic::div_mod::lemma_small_mod(wit as nat, i as nat);
        }
    }

    // Remove right trailing max letters, and increase the first non-max letter
    let c = last_below_max(&lw.vec, m, n, Ghost(wit));
    proof {
        assert(x[c - 1] <= m);
    }
    raise_at(&mut lw.vec, m, c, Ghost(w));
    lw.len = c;
    proof {
        let y = lw.word();
        if c - 1 < i {
            assert forall|s: int| 0 <= s < c implies w[s] == x[s] by {
                vstd::arithmetic::div_mod::lemma_small_mod(s as nat, i as nat);
            }
            lemma_raised_is_larger(w, y, c as int);
        } else {
            assert forall|s: int| 0 <= s < w.len() implies w[s] == y[s] by {
                vstd::arithmetic::div_mod::lemma_small_mod(s as nat, i as nat);
            }
        }
    }
    true
}

/// Tiles the raised block `v[k..k+d]` after the Lyndon word `v[0..i]` as
/// many times as it fits; returns the new end of the word.
fn tile_raised_block(
    v: &mut Vec<Letter>,
    m: Letter,
    k: usize,
    d: usize,
    i: usize,
    Ghost(w): Ghost<Seq<u8>>,
) -> (e: usize)
    requires
        1 <= d,
        k + d <= i <= old(v).len(),
        old(v).len() - k <= k,
        is_lyndon(old(v)@.subrange(0, i as int)),
        forall|t: int| 0 <= t < d - 1 ==> #[trigger] old(v)@[k + t] == old(v)@[t],
        old(v)@[k + d - 1] == old(v)@[d - 1] + 1,
        forall|t: int| d <= t < old(v).len() - k ==> old(v)@[t] == m,
        letters_le(old(v)@, m),
        next_of_length(w, old(v)@.subrange(0, i as int), old(v).len() as nat, m),
    ensures
        final(v).len() == old(v).len(),
        i <= e <= old(v).len(),
        e + d > old(v).len(),
        forall|t: int| 0 <= t < i ==> #[trigger] final(v)@[t] == old(v)@[t],
        is_lyndon(final(v)@.subrange(0, e as int)),
        letters_le(final(v)@, m),
        next_of_length(w, final(v)@.subrange(0, e as int), old(v).len() as nat, m),
{
    let n = v.len();
    let mut e: usize = i;
    while d <= n - e
        invariant
            n == v.len(),
            n == old(v).len(),
            1 <= d,
            k + d <= i <= e <= n,
            n - k <= k,
            is_lyndon(v@.subrange(0, e as int)),
            next_of_length(w, v@.subrange(0, e as int), n as nat, m),
            forall|t: int| d <= t < n - k ==> old(v)@[t] == m,
            forall|t: int| 0 <= t < i ==> #[trigger] v@[t] == old(v)@[t],
            forall|t: int| 0 <= t < d - 1 ==> #[trigger] old(v)@[k + t] == old(v)@[t],
            old(v)@[k + d - 1] == old(v)@[d - 1] + 1,
            letters_le(v@, m),
        decreases n - e,
    {
        let ghost q = v@;
        copy_block(v, k, e, d);
        proof {
            let qe = q.subrange(0, e as int);
            let ext = extend(qe, (e + d) as nat);
            assert(q[k + d - 1] == q[d - 1] + 1);
            assert(q[d - 1] < 255) by {
                assert(q[k + d - 1] <= m);
            }
            lemma_extend_prenecklace(qe, (e + d) as nat);
            assert(ext.last() == q[d - 1]) by {
                vstd::arithmetic::div_mod::lemma_mod_add_multiples_vanish(d - 1, e as int);
                vstd::arithmetic::div_mod::lemma_small_mod((d - 1) as nat, e as nat);
            }
            assert forall|t: int| 0 <= t < e + d implies #[trigger] v@.subrange(
                0,
                (e + d) as int,
            )[t] == bump(ext)[t] by {
                if t >= e {
                    vstd::arithmetic::div_mod::lemma_mod_add_multiples_vanish(t - e, e as int);
                    vstd::arithmetic::div_mod::lemma_small_mod((t - e) as nat, e as nat);
                    if t - e < d - 1 {
                        assert(q[k + (t - e)] == q[t - e]);
                    }
                } else {
                    vstd::arithmetic::div_mod::lemma_small_mod(t as nat, e as nat);
                }
            }
            assert(v@.subrange(0, (e + d) as int) =~= bump(ext));
            lemma_bump_lyndon(ext);
            assert forall|t: int| d <= t < n - e implies qe[t] == m by {
                assert(q[t] == old(v)@[t]);
            }
            lemma_tile_step_no_gap(w, qe, n as nat, m, d as int);
            assert forall|t: int| 0 <= t < v.len() implies #[trigger] v@[t] <= m by {
                if e <= t < e + d {
                    assert(q[t - e + k] <= m);
                } else {
                    assert(q[t] <= m);
                }
            }
        }
        e = e + d;
    }
    e
}

/// A word read cyclically from `u` is unchanged by a shift of a multiple of
/// the length of `u`.
proof fn lemma_shift_by_period(u: Seq<u8>, n: nat, k: int, t: int)
    requires
        u.len() >= 1,
        k % (u.len() as int) == 0,
        0 <= k,
        0 <= t,
        k + t < n,
    ensures
        extend(u, n)[k + t] == extend(u, n)[t],
{
    let p = u.len() as int;
    vstd::arithmetic::div_mod::lemma_fundamental_div_mod(k, p);
    vstd::arithmetic::div_mod::lemma_mod_multiples_vanish(k / p, t, p);
}

/// One round of the fixed-length successor: repeat the Lyndon word
/// `v[0..period]` up to the end of the buffer, strip and raise, then tile the
/// raised block; returns the end of the new Lyndon word `v[0..e]`.
#[verifier::rlimit(60)]
fn retile(
    v: &mut Vec<Letter>,
    m: Letter,
    k: usize,
    Ghost(period): Ghost<int>,
    Ghost(w): Ghost<Seq<u8>>,
) -> (i: usize)
    requires
        1 <= period <= k < old(v).len(),
        old(v).len() - k <= period,
        next_of_length(w, old(v)@.subrange(0, period), old(v).len() as nat, m),
        k as int % period == 0,
        is_lyndon(old(v)@.subrange(0, period)),
        forall|t: int| 0 <= t < k ==> #[trigger] old(v)@[t] == old(v)@[t % period],
        letters_le(old(v)@, m),
        old(v)@[0] < m,
    ensures
        final(v).len() == old(v).len(),
        k < i <= old(v).len(),
        old(v).len() - i <= i,
        forall|t: int| 0 <= t < k ==> #[trigger] final(v)@[t] == old(v)@[t],
        is_lyndon(final(v)@.subrange(0, i as int)),
        letters_le(final(v)@, m),
        next_of_length(w, final(v)@.subrange(0, i as int), old(v).len() as nat, m),
{
    let n = v.len();
    let ghost u = v@.subrange(0, period);
    let ghost before = v@;
    fill_periodic(v, k, Ghost(period));
    let ghost x = v@;
    proof {
        assert(x[k as int] < m) by {
            vstd::arithmetic::div_mod::lemma_mod_self_0(period);
            vstd::arithmetic::div_mod::lemma_mod_bound(k as int, period);
            assert(x[k as int] == u[k as int % period]);
        }
        assert forall|t: int| 0 <= t < k implies #[trigger] x[t] == before[t] by {
            vstd::arithmetic::div_mod::lemma_mod_bound(t, period);
        }
        assert forall|t: int| 0 <= t < n implies #[trigger] x[t] <= m by {
            vstd::arithmetic::div_mod::lemma_mod_bound(t, period);
            assert(before[t % period] <= m);
        }
    }
    let i = last_below_max(v, m, n, Ghost(k as int));
    proof {
        assert(x[i - 1] <= m);
    }
    raise_at(v, m, i, Ghost(u));
    let d = i - k;
    proof {
        assert forall|t: int| 0 <= t && k + t < n implies #[trigger] x[k + t] == x[t] by {
            lemma_shift_by_period(u, n as nat, k as int, t);
        }
        assert(x[k + (d - 1)] == x[d - 1]);
        assert forall|t: int| 0 <= t < d - 1 implies #[trigger] v@[k + t] == v@[t] by {
            assert(x[k + t] == x[t]);
        }
        assert forall|t: int| 0 <= t < n implies #[trigger] v@[t] <= m by {
            assert(x[t] <= m);
        }
        assert(u[0] == before[0]);
        lemma_bounded_step_no_gap(w, u, n as nat, m);
        assert forall|t: int| d <= t < n - k implies v@[t] == m by {
            assert(x[k + t] == x[t]);
            assert(x[k + t] == m);
        }
    }
    let ghost mid = v@;
    let e = tile_raised_block(v, m, k, d, i, Ghost(w));
    proof {
        assert forall|t: int| 0 <= t < k implies #[trigger] v@[t] == before[t] by {
            assert(v@[t] == mid[t]);
            assert(mid[t] == x[t]);
        }
    }
    e
}

/// Fixed-length successor (Duval, 1988): the next Lyndon word of length
/// exactly the capacity, built by tiling the raised prefix along the buffer.
#[verifier::rlimit(80)]
fn next_fllw(lw: &mut LyndonWord) -> (advanced: bool)
    requires
        old(lw).wf(),
        old(lw).len == old(lw).vec.len(),
    ensures
        advanced == !is_exhausted(old(lw).word(), old(lw).max_letter, true),
        !advanced ==> *final(lw) == *old(lw),
        advanced ==> {
            &&& final(lw).wf()
            &&& final(lw).vec.len() == old(lw).vec.len()
            &&& final(lw).len == old(lw).len
            &&& final(lw).max_letter == old(lw).max_letter
            &&& follows(
                old(lw).word(),
                final(lw).word(),
                old(lw).vec.len() as nat,
                old(lw).max_letter,
                true,
            )
        },
{
    let n = lw.vec.len();
    let m = lw.max_letter;
    let ghost w = lw.word();
    proof {
        assert(w =~= lw.vec@);
        lemma_last_fixed_is_exhausted(w, m);
    }

    // A word of length one has no successor once it is the maximal letter
    if n == 1 && lw.vec[0] == m {
        return false;
    }
    proof {
        if n >= 2 {
            lemma_lyndon_not_constant(w, m);
        } else {
            assert(w[0] < m);
        }
    }
    let ghost wit = choose|t: int| 0 <= t < w.len() && w[t] < m;

    // Remove right trailing max letters; the first non-max letter is at c - 1
    let c = last_below_max(&lw.vec, m, n, Ghost(wit));
    proof {
        assert(w[c - 1] <= m);
        lemma_strip_prefix(w, m, c as int);
        let wc = w.subrange(0, c as int);
        assert(strip(wc, m) == wc);
    }

    // If the first letter becomes maximal, the current word was the last one
    let first = if c == 1 { lw.vec[0] + 1 } else { lw.vec[0] };
    if n > 1 && first == m {
        return false;
    }
    proof {
        assert(extend(w, n as nat) =~= w) by {
            assert forall|t: int| 0 <= t < n implies extend(w, n as nat)[t] == w[t] by {
                vstd::arithmetic::div_mod::lemma_small_mod(t as nat, n as nat);
            }
        }
    }
    raise_at(&mut lw.vec, m, c, Ghost(w));
    let ghost p = succ(w, m);
    proof {
        assert forall|u: Seq<u8>|
            is_lyndon(u) && u.len() == n && letters_le(u, m) && #[trigger] lex_lt(w, u) implies u
            == w || lex_lt(w, u) by {}
        lemma_bounded_step_no_gap(w, w, n as nat, m);
    }
    proof {
        assert(n > 1 ==> lw.vec@[0] < m);
        assert(letters_le(lw.vec@, m)) by {
            assert forall|t: int| 0 <= t < n implies #[trigger] lw.vec@[t] <= m by {
                assert(w[t] <= m);
            }
        }
    }

    // Repeat the prefix [0..c) integrally, as many times as possible
    let i: usize = c;
    let mut k: usize = c;
    proof {
        assert forall|t: int| 0 <= t < k implies #[trigger] lw.vec@[t] == lw.vec@[t % (c as int)] by {
            vstd::arithmetic::div_mod::lemma_small_mod(t as nat, c as nat);
        }
        vstd::arithmetic::div_mod::lemma_mod_self_0(c as int);
    }
    while i < n - k
        invariant
            n == lw.vec.len(),
            lw.len == n,
            lw.max_letter == m,
            1 <= c <= n,
            i == c,
            c <= k <= n,
            c < n ==> k < n,
            k as int % c as int == 0,
            letters_le(lw.vec@, m),
            n > 1 ==> lw.vec@[0] < m,
            lw.vec@.subrange(0, c as int) == p,
            is_lyndon(p),
            next_of_length(w, p, n as nat, m),
            forall|t: int| 0 <= t < k ==> #[trigger] lw.vec@[t] == lw.vec@[t % (c as int)],
        decreases n - k,
    {
        let ghost before = lw.vec@;
        copy_block(&mut lw.vec, 0, k, i);
        proof {
            assert(lw.vec@.subrange(0, c as int) =~= p);
            assert forall|t: int| 0 <= t < k + i implies #[trigger] lw.vec@[t] == lw.vec@[t
                % (c as int)] by {
                vstd::arithmetic::div_mod::lemma_mod_bound(t, c as int);
                if t >= k {
                    vstd::arithmetic::div_mod::lemma_fundamental_div_mod(k as int, c as int);
                    vstd::arithmetic::div_mod::lemma_mod_multiples_vanish(
                        k as int / c as int,
                        t - k,
                        c as int,
                    );
                    vstd::arithmetic::div_mod::lemma_small_mod((t - k) as nat, c as nat);
                }
            }
            assert forall|t: int| 0 <= t < n implies #[trigger] lw.vec@[t] <= m by {
                if k <= t < k + i {
                    assert(before[t - k] <= m);
                } else {
                    assert(before[t] <= m);
                }
            }
            vstd::arithmetic::div_mod::lemma_mod_add_multiples_vanish(k as int, c as int);
        }
        k = k + i;
    }
    let mut i: usize = i;
    // Repeat the prefix non-integrally up to the end of the buffer, then
    // strip, raise, and tile the short raised block as much as possible;
    // stop once a tiling ends exactly at the end of the buffer
    let ghost mut period: int = c as int;
    while i != n
        invariant
            n == lw.vec.len(),
            lw.len == n,
            lw.max_letter == m,
            1 <= c <= i <= n,
            i <= k <= n,
            (i == n) == (k == n),
            1 <= period <= k,
            k as int % period == 0,
            i == n ==> period == n,
            is_lyndon(lw.vec@.subrange(0, period)),
            forall|t: int| 0 <= t < k ==> #[trigger] lw.vec@[t] == lw.vec@[t % period],
            letters_le(lw.vec@, m),
            n > 1 ==> lw.vec@[0] < m,
            lw.vec@.subrange(0, c as int) == p,
            i < n ==> n - k <= period,
            next_of_length(w, lw.vec@.subrange(0, period), n as nat, m),
        decreases n - k,
    {
        let ghost before = lw.vec@;
        i = retile(&mut lw.vec, m, k, Ghost(period), Ghost(w));
        proof {
            assert forall|t: int| 0 <= t < c implies #[trigger] lw.vec@[t] == before[t] by {}
            assert(lw.vec@.subrange(0, c as int) =~= p);
            assert(lw.vec@[0] == before[0]);
        }
        k = i;
        proof {
            period = i as int;
            vstd::arithmetic::div_mod::lemma_mod_self_0(period);
            assert forall|t: int| 0 <= t < k implies #[trigger] lw.vec@[t] == lw.vec@[t
                % period] by {
                vstd::arithmetic::div_mod::lemma_small_mod(t as nat, period as nat);
            }
        }
    }
    proof {
        assert(lw.vec@.subrange(0, n as int) =~= lw.vec@);
        assert(strip(w, m).len() == c);
        assert(p.len() == c);
        let y = lw.vec@;
        assert forall|s: int| 0 <= s < c - 1 implies w[s] == y[s] by {
            assert(y[s] == p[s]);
        }
        assert(y[c - 1] == p[c - 1]);
        lemma_raised_is_larger(w, y, c as int);
        assert(lw.word() == y);
    }
    true
}

} // verus!
