//! Perfectness: a word is perfect for an order `k` when its cyclic windows of
//! length `k` are pairwise distinct.
use vstd::prelude::*;
use crate::words::{Word, is_lyndon, lemma_lex_lt_asymmetric, lex_lt, rotate, window};

verus! {

/// The cyclic windows of length `k` of `w` are pairwise distinct.
pub open spec fn perfect(w: Seq<u8>, k: nat) -> bool {
    forall|i: int, j: int| 0 <= i < j < w.len() ==> window(w, k, i) != window(w, k, j)
}

/// The node of length `k` read cyclically in `w` from position `i`.
pub fn node_at(w: &Word, k: usize, i: usize) -> (r: Word)
    requires
        w.len() >= 1,
    ensures
        r@ == window(w@, k as nat, i as int),
{
    let n = w.len();
    let mut pos: usize = i % n;
    let mut node: Word = Vec::with_capacity(k);
    let mut j: usize = 0;
    while j < k
        invariant
            n == w.len(),
            n >= 1,
            j <= k,
            pos < n,
            pos as int == (i as int + j as int) % (n as int),
            node@ =~= window(w@, k as nat, i as int).subrange(0, j as int),
        decreases k - j,
    {
        node.push(w[pos]);
        proof {
            vstd::arithmetic::div_mod::lemma_add_mod_noop_right(1, i as int + j as int, n as int);
            if pos + 1 < n {
                vstd::arithmetic::div_mod::lemma_small_mod((pos + 1) as nat, n as nat);
            } else {
                vstd::arithmetic::div_mod::lemma_mod_self_0(n as int);
            }
        }
        pos = if pos + 1 == n { 0 } else { pos + 1 };
        j = j + 1;
    }
    node
}

/// Whether two words are equal, letter by letter.
pub fn same_word(a: &Word, b: &Word) -> (r: bool)
    ensures
        r == (a@ == b@),
{
    if a.len() != b.len() {
        return false;
    }
    let mut t: usize = 0;
    while t < a.len()
        invariant
            a.len() == b.len(),
            t <= a.len(),
            forall|s: int| 0 <= s < t ==> a@[s] == b@[s],
        decreases a.len() - t,
    {
        if a[t] != b[t] {
            return false;
        }
        t = t + 1;
    }
    assert(a@ =~= b@);
    true
}

/// Whether the cyclic windows of length `k` of `word` are pairwise distinct,
/// for an order `k` from 1 to the length of the word.
pub fn is_perfect(word: &Word, k: usize) -> (r: bool)
    requires
        1 <= k <= word.len(),
    ensures
        r == perfect(word@, k as nat),
{
    let n = word.len();
    let mut kmers: Vec<Word> = Vec::with_capacity(n);
    let mut i: usize = 0;
    while i < n
        invariant
            n == word.len(),
            n >= 1,
            i <= n,
            kmers.len() == i,
            forall|s: int| 0 <= s < i ==> #[trigger] kmers@[s]@ == window(word@, k as nat, s),
        decreases n - i,
    {
        let node = node_at(word, k, i);
        kmers.push(node);
        i = i + 1;
    }
    let mut a: usize = 0;
    while a < n
        invariant
            n == word.len(),
            kmers.len() == n,
            a <= n,
            forall|s: int| 0 <= s < n ==> #[trigger] kmers@[s]@ == window(word@, k as nat, s),
            forall|x: int, y: int|
                0 <= x < a && x < y < n ==> window(word@, k as nat, x) != window(
                    word@,
                    k as nat,
                    y,
                ),
        decreases n - a,
    {
        let mut b: usize = a + 1;
        while b < n
            invariant
                n == word.len(),
                kmers.len() == n,
                a < n,
                a < b <= n,
                forall|s: int| 0 <= s < n ==> #[trigger] kmers@[s]@ == window(word@, k as nat, s),
                forall|x: int, y: int|
                    0 <= x < a && x < y < n ==> window(word@, k as nat, x) != window(
                        word@,
                        k as nat,
                        y,
                    ),
                forall|y: int|
                    a < y < b ==> window(word@, k as nat, a as int) != window(word@, k as nat, y),
            decreases n - b,
        {
            if same_word(&kmers[a], &kmers[b]) {
                assert(kmers@[a as int]@ == window(word@, k as nat, a as int));
                assert(kmers@[b as int]@ == window(word@, k as nat, b as int));
                return false;
            }
            b = b + 1;
        }
        a = a + 1;
    }
    true
}

/// Perfectness of a word that the caller knows to be a Lyndon word: a word
/// no longer than `k` is taken as perfect without looking.
pub fn is_perfect_lyndon(word: &Word, k: usize) -> (r: bool)
    requires
        k >= 1,
    ensures
        r == (word.len() <= k || perfect(word@, k as nat)),
{
    if word.len() <= k {
        return true;
    }
    is_perfect(word, k)
}

/// A Lyndon word no longer than `k` is perfect for `k`: two equal windows
/// would make a proper rotation of the word equal to it. Hence
/// `is_perfect_lyndon` agrees with `is_perfect` on every Lyndon word.
pub proof fn lemma_short_lyndon_is_perfect(w: Seq<u8>, k: nat)
    requires
        is_lyndon(w),
        w.len() <= k,
    ensures
        perfect(w, k),
{
    let n = w.len() as int;
    assert forall|i: int, j: int| 0 <= i < j < w.len() implies window(w, k, i) != window(
        w,
        k,
        j,
    ) by {
        if window(w, k, i) == window(w, k, j) {
            let r = j - i;
            let rw = rotate(w, r);
            assert forall|s: int| 0 <= s < n implies rw[s] == w[s] by {
                let t = (s - i + n) % n;
                vstd::arithmetic::div_mod::lemma_mod_bound(s - i + n, n);
                assert(window(w, k, i)[t] == window(w, k, j)[t]);
                assert((i + t) % n == s) by {
                    vstd::arithmetic::div_mod::lemma_add_mod_noop_right(i, s - i + n, n);
                    vstd::arithmetic::div_mod::lemma_mod_add_multiples_vanish(s, n);
                    vstd::arithmetic::div_mod::lemma_small_mod(s as nat, n as nat);
                }
                assert((j + t) % n == (r + s) % n) by {
                    vstd::arithmetic::div_mod::lemma_add_mod_noop_right(j, s - i + n, n);
                    vstd::arithmetic::div_mod::lemma_mod_add_multiples_vanish(r + s, n);
                }
            }
            assert(rw =~= w);
            assert(lex_lt(w, rw));
            lemma_lex_lt_asymmetric(w, w);
        }
    }
}

} // verus!
