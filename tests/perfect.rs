use dbg_cycles::perfect::is_perfect;

#[test]
fn test_is_perfect() {
    assert_eq!(is_perfect(&vec![0, 1, 0, 1, 1], 2), false);
    assert_eq!(is_perfect(&vec![0, 1, 0, 1, 1], 3), false);
    assert_eq!(is_perfect(&vec![0, 1, 0, 1, 1], 4), true);
    assert_eq!(is_perfect(&vec![0, 1, 0, 1, 1], 5), true);
    assert_eq!(is_perfect(&vec![0, 1, 0, 1, 1], 6), true);
}
