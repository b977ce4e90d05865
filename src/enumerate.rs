//! Simple cycles of de Bruijn graphs, obtained from perfect Lyndon words.
use vstd::prelude::*;
use crate::lyndon::{LyndonWord, is_run};
use crate::perfect::{is_perfect_lyndon, lemma_short_lyndon_is_perfect, node_at, perfect};
use crate::words::{
    Cycle, Word, copy_word, cycles_view, is_lyndon, letters_le, smallest, window, words_view,
};
use vstd::arithmetic::power::{
    lemma_pow0, lemma_pow1, lemma_pow_adds, lemma_pow_increases, lemma_pow_positive, pow,
};

verus! {

/// The closed walk of the nodes of length `k` read cyclically in `w`, from
/// each position of `w` and back to the first.
pub open spec fn cycle_of(w: Seq<u8>, k: nat) -> Seq<Seq<u8>> {
    Seq::new(w.len() + 1, |i: int| window(w, k, i))
}

/// A word that gives a simple cycle of order `k`: every word no longer than
/// `k` is taken, a longer one only when perfect.
pub open spec fn kept(w: Seq<u8>, k: nat) -> bool {
    w.len() <= k || perfect(w, k)
}

/// The cycles of the kept words of `ws`, in the order of `ws`.
pub open spec fn cycles_from(ws: Seq<Seq<u8>>, k: nat) -> Seq<Seq<Seq<u8>>>
    decreases ws.len(),
{
    if ws.len() == 0 {
        Seq::empty()
    } else {
        let rest = cycles_from(ws.drop_last(), k);
        if kept(ws.last(), k) {
            rest.push(cycle_of(ws.last(), k))
        } else {
            rest
        }
    }
}

/// The cycle of order `k` that the word `w` stands for.
pub fn map_word_to_cycle(w: Word, k: usize) -> (cycle: Vec<Word>)
    requires
        w.len() >= 1,
    ensures
        words_view(cycle@) == cycle_of(w@, k as nat),
{
    let n = w.len();
    let mut cycle: Vec<Word> = Vec::with_capacity(n);
    let mut i: usize = 0;
    while i < n
        invariant
            n == w.len(),
            n >= 1,
            i <= n,
            cycle.len() == i,
            forall|s: int| 0 <= s < i ==> #[trigger] cycle@[s]@ == window(w@, k as nat, s),
        decreases n - i,
    {
        let node = node_at(&w, k, i);
        cycle.push(node);
        i = i + 1;
    }
    let node = node_at(&w, k, n);
    cycle.push(node);
    assert(words_view(cycle@) =~= cycle_of(w@, k as nat));
    cycle
}

/// The cycles of the kept words of `lws`; `all_short` tells that no word of
/// `lws` is longer than `order`, so that none needs a check.
fn cycles_of_words(lws: &Vec<Word>, order: usize, all_short: bool) -> (r: Vec<Cycle>)
    requires
        order >= 1,
        forall|i: int| 0 <= i < lws.len() ==> #[trigger] lws@[i]@.len() >= 1,
        all_short ==> forall|i: int| 0 <= i < lws.len() ==> #[trigger] lws@[i]@.len() <= order,
    ensures
        cycles_view(r@) == cycles_from(words_view(lws@), order as nat),
{
    let ghost ws = words_view(lws@);
    let mut collection: Vec<Cycle> = Vec::new();
    let mut i: usize = 0;
    while i < lws.len()
        invariant
            i <= lws.len(),
            ws == words_view(lws@),
            order >= 1,
            forall|j: int| 0 <= j < lws.len() ==> #[trigger] lws@[j]@.len() >= 1,
            all_short ==> forall|j: int| 0 <= j < lws.len() ==> #[trigger] lws@[j]@.len() <= order,
            cycles_view(collection@) == cycles_from(ws.take(i as int), order as nat),
        decreases lws.len() - i,
    {
        let keep = if all_short {
            true
        } else {
            is_perfect_lyndon(&lws[i], order)
        };
        proof {
            assert(ws.take(i as int + 1).drop_last() =~= ws.take(i as int));
            assert(ws.take(i as int + 1).last() == lws@[i as int]@);
        }
        if keep {
            let w = copy_word(&lws[i]);
            let cycle = map_word_to_cycle(w, order);
            let ghost before = collection@;
            collection.push(cycle);
            proof {
                assert(cycles_view(collection@) =~= cycles_view(before).push(words_view(cycle@)));
            }
        }
        i = i + 1;
    }
    assert(ws.take(lws.len() as int) =~= ws);
    collection
}

/// The simple cycles of length exactly `length` in the de Bruijn graph of
/// order `order` over `sigma` letters, one per perfect Lyndon word of that
/// length, in increasing order of the words.
pub fn enum_cycles_fixed_length(length: usize, order: usize, sigma: u8) -> (r: Vec<Cycle>)
    requires
        length >= 1,
        order >= 1,
        sigma >= 2,
    ensures
        exists|ws: Seq<Seq<u8>>|
            {
                &&& is_run(ws, length as nat, (sigma - 1) as u8, true)
                &&& ws[0] == smallest(length as nat)
                &&& cycles_view(r@) == cycles_from(ws, order as nat)
            },
{
    let lws = LyndonWord::new_smallest(length, sigma - 1).iter(true).collect();
    let ghost ws = words_view(lws@);
    proof {
        assert forall|i: int| 0 <= i < lws.len() implies #[trigger] lws@[i]@.len() >= 1 by {
            assert(ws[i] == lws@[i]@);
        }
        if length <= order {
            assert forall|i: int| 0 <= i < lws.len() implies #[trigger] lws@[i]@.len()
                <= order by {
                assert(ws[i] == lws@[i]@);
            }
        }
    }
    let collection = cycles_of_words(&lws, order, length <= order);
    proof {
        assert(ws[0] == lws@[0]@);
    }
    collection
}

/// The simple cycles of length at most `length` in the de Bruijn graph of
/// order `order` over `sigma` letters, one per perfect Lyndon word of length
/// at most `length`, in increasing order of the words (not grouped by length).
pub fn enum_cycles_bounded_length(length: usize, order: usize, sigma: u8) -> (r: Vec<Cycle>)
    requires
        length >= 1,
        order >= 1,
        sigma >= 2,
    ensures
        exists|ws: Seq<Seq<u8>>|
            {
                &&& is_run(ws, length as nat, (sigma - 1) as u8, false)
                &&& ws[0] == seq![0u8]
                &&& cycles_view(r@) == cycles_from(ws, order as nat)
            },
{
    let lws = LyndonWord::new_smallest(length, sigma - 1).iter(false).collect();
    let ghost ws = words_view(lws@);
    proof {
        assert forall|i: int| 0 <= i < lws.len() implies #[trigger] lws@[i]@.len() >= 1 by {
            assert(ws[i] == lws@[i]@);
        }
    }
    let collection = cycles_of_words(&lws, order, false);
    proof {
        assert(ws[0] == lws@[0]@);
        assert(ws[0] =~= seq![0u8]);
    }
    collection
}

/// Every simple cycle of the de Bruijn graph of order `order` over `sigma`
/// letters, whose number of nodes `sigma^order` bounds their lengths.
pub fn enum_all_cycles(order: usize, sigma: u8) -> (r: Vec<Cycle>)
    requires
        order >= 1,
        sigma >= 2,
        pow(sigma as int, order as nat) <= usize::MAX,
    ensures
        exists|ws: Seq<Seq<u8>>|
            {
                &&& is_run(ws, pow(sigma as int, order as nat) as nat, (sigma - 1) as u8, false)
                &&& ws[0] == seq![0u8]
                &&& cycles_view(r@) == cycles_from(ws, order as nat)
            },
{
    let mut size: usize = 1;
    let mut e: usize = 0;
    proof {
        lemma_pow0(sigma as int);
    }
    while e < order
        invariant
            e <= order,
            size as int == pow(sigma as int, e as nat),
            sigma >= 2,
            pow(sigma as int, order as nat) <= usize::MAX,
        decreases order - e,
    {
        proof {
            lemma_pow_adds(sigma as int, e as nat, 1);
            lemma_pow1(sigma as int);
            lemma_pow_increases(sigma as nat, (e + 1) as nat, order as nat);
        }
        size = size * (sigma as usize);
        e = e + 1;
    }
    proof {
        lemma_pow_positive(sigma as int, order as nat);
    }
    enum_cycles_bounded_length(size, order, sigma)
}

/// The cycle of a word has one node more than the word has letters, each of
/// length `k`; it closes on its first node, and each node overlaps the next
/// in `k - 1` letters.
pub proof fn lemma_cycle_shape(w: Seq<u8>, k: nat)
    requires
        w.len() >= 1,
    ensures
        cycle_of(w, k).len() == w.len() + 1,
        forall|i: int| 0 <= i <= w.len() ==> (#[trigger] cycle_of(w, k)[i]).len() == k,
        cycle_of(w, k)[0] == cycle_of(w, k)[w.len() as int],
        k >= 1 ==> forall|i: int|
            0 <= i < w.len() ==> (#[trigger] cycle_of(w, k)[i]).subrange(1, k as int) == cycle_of(
                w,
                k,
            )[i + 1].subrange(0, k - 1),
{
    let c = cycle_of(w, k);
    let n = w.len() as int;
    assert forall|j: int| 0 <= j < k implies c[0][j] == c[n][j] by {
        vstd::arithmetic::div_mod::lemma_mod_add_multiples_vanish(j, n);
    }
    assert(c[0] =~= c[n]);
    if k >= 1 {
        assert forall|i: int| 0 <= i < w.len() implies (#[trigger] c[i]).subrange(1, k as int)
            == c[i + 1].subrange(0, k - 1) by {
            assert(c[i].subrange(1, k as int) =~= c[i + 1].subrange(0, k - 1)) by {
                assert forall|j: int| 0 <= j < k - 1 implies c[i][1 + j] == #[trigger] c[i + 1][j] by {
                    assert(i + (1 + j) == (i + 1) + j);
                }
            }
        }
    }
}

/// The letters read at the start of the first `len` nodes of a cycle.
pub open spec fn first_letters(c: Seq<Seq<u8>>, len: nat) -> Seq<u8> {
    Seq::new(len, |i: int| c[i][0])
}

/// Each cycle of `cycles_from(ws, k)` is the cycle of a kept word of `ws`.
proof fn lemma_cycles_from_members(ws: Seq<Seq<u8>>, k: nat, idx: int) -> (wi: int)
    requires
        0 <= idx < cycles_from(ws, k).len(),
    ensures
        0 <= wi < ws.len(),
        kept(ws[wi], k),
        cycles_from(ws, k)[idx] == cycle_of(ws[wi], k),
    decreases ws.len(),
{
    let rest = cycles_from(ws.drop_last(), k);
    if kept(ws.last(), k) && idx == rest.len() {
        ws.len() - 1
    } else {
        lemma_cycles_from_members(ws.drop_last(), k, idx)
    }
}

/// Each cycle of a fixed-length enumeration of length `len` gives back its
/// perfect Lyndon word over `[0, m]` as the first letters of its first `len`
/// nodes; the word is perfect also where the enumeration skipped the check.
pub proof fn lemma_cycle_round_trip(ws: Seq<Seq<u8>>, len: nat, m: u8, k: nat)
    requires
        is_run(ws, len, m, true),
        k >= 1,
    ensures
        forall|idx: int|
            0 <= idx < cycles_from(ws, k).len() ==> {
                let c = #[trigger] cycles_from(ws, k)[idx];
                let u = first_letters(c, len);
                &&& is_lyndon(u)
                &&& u.len() == len
                &&& letters_le(u, m)
                &&& perfect(u, k)
                &&& c == cycle_of(u, k)
            },
{
    assert forall|idx: int| 0 <= idx < cycles_from(ws, k).len() implies {
        let c = #[trigger] cycles_from(ws, k)[idx];
        let u = first_letters(c, len);
        &&& is_lyndon(u)
        &&& u.len() == len
        &&& letters_le(u, m)
        &&& perfect(u, k)
        &&& c == cycle_of(u, k)
    } by {
        let wi = lemma_cycles_from_members(ws, k, idx);
        let w = ws[wi];
        let c = cycles_from(ws, k)[idx];
        assert(w.len() == len);
        assert forall|i: int| 0 <= i < len implies #[trigger] first_letters(c, len)[i] == w[i] by {
            assert(c[i] == window(w, k, i));
            vstd::arithmetic::div_mod::lemma_small_mod(i as nat, len);
        }
        assert(first_letters(c, len) =~= w);
        if w.len() <= k {
            lemma_short_lyndon_is_perfect(w, k);
        }
    }
}

} // verus!
