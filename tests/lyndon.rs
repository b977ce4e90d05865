use dbg_cycles::lyndon::LyndonWord;

#[test]
fn lyndon_test_fllw_smallest() {
    let fllw = LyndonWord::new_smallest(6, 1);
    assert_eq!(fllw.get_word(), [0, 0, 0, 0, 0, 1]);

    let fllw = LyndonWord::new_smallest(1, 1);
    assert_eq!(fllw.get_word(), [0]);
}

#[test]
fn test_fixed_length_lw_iterator() {
    let fllw42 = [
        [0, 0, 0, 1],
        [0, 0, 0, 2],
        [0, 0, 1, 1],
        [0, 0, 1, 2],
        [0, 0, 2, 1],
        [0, 0, 2, 2],
        [0, 1, 0, 2],
        [0, 1, 1, 1],
        [0, 1, 1, 2],
        [0, 1, 2, 1],
        [0, 1, 2, 2],
        [0, 2, 1, 1],
        [0, 2, 1, 2],
        [0, 2, 2, 1],
        [0, 2, 2, 2],
        [1, 1, 1, 2],
        [1, 1, 2, 2],
        [1, 2, 2, 2],
    ];

    let mut lw = LyndonWord::new_smallest(4, 2);
    assert_eq!(lw.iter(true).collect(), fllw42);

    let fllw12 = [[0], [1], [2]];
    let mut lw = LyndonWord::new_smallest(1, 2);
    assert_eq!(lw.iter(true).collect(), fllw12);
}

#[test]
fn test_bounded_length_lw_iterator() {
    let bllw42: Vec<Vec<u8>> = vec![
        vec![0],
        vec![0, 0, 0, 1],
        vec![0, 0, 0, 2],
        vec![0, 0, 1],
        vec![0, 0, 1, 1],
        vec![0, 0, 1, 2],
        vec![0, 0, 2],
        vec![0, 0, 2, 1],
        vec![0, 0, 2, 2],
        vec![0, 1],
        vec![0, 1, 0, 2],
        vec![0, 1, 1],
        vec![0, 1, 1, 1],
        vec![0, 1, 1, 2],
        vec![0, 1, 2],
        vec![0, 1, 2, 1],
        vec![0, 1, 2, 2],
        vec![0, 2],
        vec![0, 2, 1],
        vec![0, 2, 1, 1],
        vec![0, 2, 1, 2],
        vec![0, 2, 2],
        vec![0, 2, 2, 1],
        vec![0, 2, 2, 2],
        vec![1],
        vec![1, 1, 1, 2],
        vec![1, 1, 2],
        vec![1, 1, 2, 2],
        vec![1, 2],
        vec![1, 2, 2],
        vec![1, 2, 2, 2],
        vec![2],
    ];

    let mut lw = LyndonWord::new_smallest(4, 2);
    assert_eq!(lw.iter(false).collect(), bllw42);

    let bllw12 = [[0], [1], [2]];
    let mut lw = LyndonWord::new_smallest(1, 2);
    assert_eq!(lw.iter(false).collect(), bllw12);
}
