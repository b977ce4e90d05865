use dbg_cycles::count::{
    Count, count_cycles_only_enum, count_cycles_with_formula, nb_lw, nb_nplw_plusthree,
    nb_nplw_plustwo,
};
use dbg_cycles::enumerate::{
    enum_all_cycles, enum_cycles_bounded_length, enum_cycles_fixed_length, map_word_to_cycle,
};
use dbg_cycles::lyndon::LyndonWord;
use dbg_cycles::math::{checked_pow, factorial, mobius, psi};
use dbg_cycles::perfect::{is_perfect, is_perfect_lyndon};

fn rotations_are_larger(w: &Vec<u8>) -> bool {
    (1..w.len()).all(|r| {
        let mut rot = w[r..].to_vec();
        rot.extend_from_slice(&w[..r]);
        *w < rot
    })
}

#[test]
fn fixed_length_run_over_three_letters() {
    let words = LyndonWord::new_smallest(4, 2).iter(true).collect();
    assert_eq!(words.len(), 18);
    assert_eq!(words[0], vec![0, 0, 0, 1]);
    assert_eq!(words[17], vec![1, 2, 2, 2]);
    for i in 1..words.len() {
        assert!(words[i - 1] < words[i]);
    }
}

#[test]
fn fixed_length_run_of_single_letters_ends_at_max() {
    let words = LyndonWord::new_smallest(1, 3).iter(true).collect();
    assert_eq!(words, vec![vec![0], vec![1], vec![2], vec![3]]);
}

#[test]
fn fixed_length_words_are_lyndon() {
    let words = LyndonWord::new_smallest(8, 1).iter(true).collect();
    assert_eq!(words.len(), 30);
    for w in &words {
        assert_eq!(w.len(), 8);
        assert!(rotations_are_larger(w));
    }
}

#[test]
fn bounded_length_words_are_lyndon_and_increasing() {
    let words = LyndonWord::new_smallest(5, 2).iter(false).collect();
    assert_eq!(words[0], vec![0]);
    assert_eq!(words[words.len() - 1], vec![2]);
    for i in 0..words.len() {
        assert!(words[i].len() <= 5);
        assert!(rotations_are_larger(&words[i]));
        if i > 0 {
            assert!(words[i - 1] < words[i]);
        }
    }
    // 3 + 3 + 8 + 18 + 48 Lyndon words of lengths 1 to 5 over 3 letters
    assert_eq!(words.len(), 80);
}

#[test]
fn iterator_stays_exhausted() {
    let mut it = LyndonWord::new_smallest(2, 1).iter(true);
    assert_eq!(it.next(), Some(vec![0, 1]));
    assert_eq!(it.next(), None);
    assert_eq!(it.next(), None);
}

#[test]
fn perfectness_detects_equal_windows() {
    assert!(!is_perfect(&vec![0, 1, 0, 1], 2));
    assert!(!is_perfect(&vec![0, 0, 1, 0, 1, 1], 2));
    assert!(is_perfect(&vec![0, 0, 1, 0, 1, 1], 3));
    assert!(is_perfect(&vec![0, 0, 0, 1, 1, 1], 3));
}

#[test]
fn perfect_lyndon_agrees_with_perfect() {
    assert!(is_perfect_lyndon(&vec![0, 1, 1], 5));
    assert!(is_perfect_lyndon(&vec![0, 1, 1], 3));
    assert_eq!(is_perfect_lyndon(&vec![0, 0, 1, 0, 1, 1], 2), is_perfect(&vec![0, 0, 1, 0, 1, 1], 2));
    assert_eq!(is_perfect_lyndon(&vec![0, 0, 1, 0, 1, 1], 3), is_perfect(&vec![0, 0, 1, 0, 1, 1], 3));
    assert!(is_perfect(&vec![0, 1, 1], 3));
}

#[test]
fn cycle_shape() {
    let w = vec![0, 0, 1, 0, 1, 1];
    let cycle = map_word_to_cycle(w.clone(), 3);
    assert_eq!(cycle.len(), w.len() + 1);
    assert_eq!(cycle[0], cycle[w.len()]);
    for i in 0..w.len() {
        assert_eq!(cycle[i].len(), 3);
        assert_eq!(cycle[i][1..], cycle[i + 1][..2]);
    }
    assert_eq!(map_word_to_cycle(vec![2], 2), vec![vec![2, 2], vec![2, 2]]);
}

#[test]
fn cycles_give_back_their_words() {
    let cycles = enum_cycles_fixed_length(6, 3, 2);
    let words: Vec<Vec<u8>> = cycles.iter().map(|c| c[..6].iter().map(|n| n[0]).collect()).collect();
    assert_eq!(words, vec![vec![0, 0, 0, 1, 1, 1], vec![0, 0, 1, 0, 1, 1], vec![0, 0, 1, 1, 0, 1]]);
    for (c, w) in cycles.iter().zip(words.iter()) {
        assert_eq!(*c, map_word_to_cycle(w.clone(), 3));
        assert!(is_perfect(w, 3));
    }
}

#[test]
fn concrete_counts_and_cycles() {
    assert_eq!(LyndonWord::new_smallest(6, 1).get_word(), vec![0, 0, 0, 0, 0, 1]);
    assert_eq!(count_cycles_only_enum(7, 3, 2), Count::FromEnum(4));
    assert_eq!(count_cycles_with_formula(9, 3, 2, true), Count::NoFormula);
    assert_eq!(enum_cycles_fixed_length(2, 3, 2), vec![vec![vec![0, 1, 0], vec![1, 0, 1], vec![0, 1, 0]]]);
    assert_eq!(enum_all_cycles(3, 2).len(), 19);
}

#[test]
fn bounded_length_one() {
    assert_eq!(
        enum_cycles_bounded_length(1, 1, 2),
        vec![vec![vec![0], vec![0]], vec![vec![1], vec![1]]]
    );
}

#[test]
fn count_provenance() {
    assert_eq!(count_cycles_with_formula(4, 3, 2, false), Count::FromProvedFormula(3));
    assert_eq!(count_cycles_with_formula(6, 3, 2, false), Count::FromConjecturedFormula(3));
    assert_eq!(count_cycles_with_formula(7, 3, 2, false), Count::FromEnum(4));
    assert_eq!(count_cycles_with_formula(8, 3, 2, false), Count::FromProvedFormula(2));
    assert_eq!(Count::FromProvedFormula(5).to_option(), Some(5));
    assert_eq!(Count::FromConjecturedFormula(6).to_option(), Some(6));
    assert_eq!(Count::FromEnum(7).to_option(), Some(7));
    assert_eq!(Count::NoFormula.to_option(), None);
}

#[test]
fn formulas_on_three_letters() {
    // (3^6 - 3^3 - 3^2 + 3) / 6
    assert_eq!(nb_lw(6, 3), Some(116));
    // totient(5) * C(3, 2)
    assert_eq!(nb_nplw_plustwo(3, 3), Some(12));
    assert_eq!(nb_nplw_plustwo(3, 2), Some(4));
    // psi(6) * 1 * 2 * 2 / 2 - 2
    assert_eq!(nb_nplw_plusthree(3, 2), Some(6));
    assert_eq!(count_cycles_with_formula(5, 3, 3, false), count_cycles_only_enum(5, 3, 3).to_option().map(Count::FromProvedFormula).unwrap());
}

#[test]
fn math_helpers() {
    assert_eq!(factorial(0), 1);
    assert_eq!(factorial(5), 120);
    assert_eq!(factorial(12), 479001600);
    assert_eq!(psi(8), 6);
    assert_eq!(psi(6), 4);
    assert_eq!(psi(7), 6);
    assert_eq!(mobius(30), -1);
    assert_eq!(mobius(99_980_001), 0);
    assert_eq!(checked_pow(2, 31), Some(2147483648));
    assert_eq!(checked_pow(2, 32), None);
    assert_eq!(checked_pow(0, 0), Some(1));
    assert_eq!(checked_pow(3, 4), Some(81));
}
