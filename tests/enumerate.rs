use dbg_cycles::enumerate::{
    enum_all_cycles, enum_cycles_bounded_length, enum_cycles_fixed_length, map_word_to_cycle,
};

#[test]
fn test_map_word_to_cycle() {
    // l <= k regime
    assert_eq!(
        map_word_to_cycle(vec![0, 1], 3),
        [[0, 1, 0], [1, 0, 1], [0, 1, 0]]
    );
    assert_eq!(
        map_word_to_cycle(vec![1, 1, 2], 5),
        [
            [1, 1, 2, 1, 1],
            [1, 2, 1, 1, 2],
            [2, 1, 1, 2, 1],
            [1, 1, 2, 1, 1]
        ]
    );

    // l > k regime
    assert_eq!(
        map_word_to_cycle(vec![0, 0, 0, 1, 1, 1], 3),
        [
            [0, 0, 0],
            [0, 0, 1],
            [0, 1, 1],
            [1, 1, 1],
            [1, 1, 0],
            [1, 0, 0],
            [0, 0, 0]
        ]
    );
    assert_eq!(
        map_word_to_cycle(vec![0, 0, 1, 0, 1, 1], 3),
        [
            [0, 0, 1],
            [0, 1, 0],
            [1, 0, 1],
            [0, 1, 1],
            [1, 1, 0],
            [1, 0, 0],
            [0, 0, 1]
        ]
    );
    assert_eq!(
        map_word_to_cycle(vec![0, 0, 1, 1, 0, 1], 3),
        [
            [0, 0, 1],
            [0, 1, 1],
            [1, 1, 0],
            [1, 0, 1],
            [0, 1, 0],
            [1, 0, 0],
            [0, 0, 1]
        ]
    );
}

#[test]
fn test_enum_cycles_fixed_length() {
    // l <= k regime
    let cycles_2_3_2 = [[[0, 1, 0], [1, 0, 1], [0, 1, 0]]];
    assert_eq!(enum_cycles_fixed_length(2, 3, 2), cycles_2_3_2);
    let cycles_1_3_2 = [[[0, 0, 0], [0, 0, 0]], [[1, 1, 1], [1, 1, 1]]];
    assert_eq!(enum_cycles_fixed_length(1, 3, 2), cycles_1_3_2);

    // l > k regime
    let cycles_6_3_2 = [
        [
            [0, 0, 0],
            [0, 0, 1],
            [0, 1, 1],
            [1, 1, 1],
            [1, 1, 0],
            [1, 0, 0],
            [0, 0, 0],
        ],
        [
            [0, 0, 1],
            [0, 1, 0],
            [1, 0, 1],
            [0, 1, 1],
            [1, 1, 0],
            [1, 0, 0],
            [0, 0, 1],
        ],
        [
            [0, 0, 1],
            [0, 1, 1],
            [1, 1, 0],
            [1, 0, 1],
            [0, 1, 0],
            [1, 0, 0],
            [0, 0, 1],
        ],
    ];
    assert_eq!(enum_cycles_fixed_length(6, 3, 2), cycles_6_3_2);
}

#[test]
fn test_enum_cycles_bounded_length() {
    let cycles_3_2 = vec![
        // 1-long
        vec![vec![0, 0, 0], vec![0, 0, 0]],
        vec![vec![1, 1, 1], vec![1, 1, 1]],
        // 2-long
        vec![vec![0, 1, 0], vec![1, 0, 1], vec![0, 1, 0]],
        // 3-long
        vec![vec![0, 0, 1], vec![0, 1, 0], vec![1, 0, 0], vec![0, 0, 1]],
        vec![vec![0, 1, 1], vec![1, 1, 0], vec![1, 0, 1], vec![0, 1, 1]],
        // 4-long
        vec![
            vec![0, 0, 0],
            vec![0, 0, 1],
            vec![0, 1, 0],
            vec![1, 0, 0],
            vec![0, 0, 0],
        ],
        vec![
            vec![0, 0, 1],
            vec![0, 1, 1],
            vec![1, 1, 0],
            vec![1, 0, 0],
            vec![0, 0, 1],
        ],
        vec![
            vec![0, 1, 1],
            vec![1, 1, 1],
            vec![1, 1, 0],
            vec![1, 0, 1],
            vec![0, 1, 1],
        ],
        // 5-long
        vec![
            vec![0, 0, 0],
            vec![0, 0, 1],
            vec![0, 1, 1],
            vec![1, 1, 0],
            vec![1, 0, 0],
            vec![0, 0, 0],
        ],
        vec![
            vec![0, 0, 1],
            vec![0, 1, 1],
            vec![1, 1, 1],
            vec![1, 1, 0],
            vec![1, 0, 0],
            vec![0, 0, 1],
        ],
        // 6-long
        vec![
            vec![0, 0, 0],
            vec![0, 0, 1],
            vec![0, 1, 1],
            vec![1, 1, 1],
            vec![1, 1, 0],
            vec![1, 0, 0],
            vec![0, 0, 0],
        ],
        vec![
            vec![0, 0, 1],
            vec![0, 1, 0],
            vec![1, 0, 1],
            vec![0, 1, 1],
            vec![1, 1, 0],
            vec![1, 0, 0],
            vec![0, 0, 1],
        ],
        vec![
            vec![0, 0, 1],
            vec![0, 1, 1],
            vec![1, 1, 0],
            vec![1, 0, 1],
            vec![0, 1, 0],
            vec![1, 0, 0],
            vec![0, 0, 1],
        ],
        // 7-long
        vec![
            vec![0, 0, 0],
            vec![0, 0, 1],
            vec![0, 1, 0],
            vec![1, 0, 1],
            vec![0, 1, 1],
            vec![1, 1, 0],
            vec![1, 0, 0],
            vec![0, 0, 0],
        ],
        vec![
            vec![0, 0, 0],
            vec![0, 0, 1],
            vec![0, 1, 1],
            vec![1, 1, 0],
            vec![1, 0, 1],
            vec![0, 1, 0],
            vec![1, 0, 0],
            vec![0, 0, 0],
        ],
        vec![
            vec![0, 0, 1],
            vec![0, 1, 0],
            vec![1, 0, 1],
            vec![0, 1, 1],
            vec![1, 1, 1],
            vec![1, 1, 0],
            vec![1, 0, 0],
            vec![0, 0, 1],
        ],
        vec![
            vec![0, 0, 1],
            vec![0, 1, 1],
            vec![1, 1, 1],
            vec![1, 1, 0],
            vec![1, 0, 1],
            vec![0, 1, 0],
            vec![1, 0, 0],
            vec![0, 0, 1],
        ],
        // 8-long
        vec![
            vec![0, 0, 0],
            vec![0, 0, 1],
            vec![0, 1, 0],
            vec![1, 0, 1],
            vec![0, 1, 1],
            vec![1, 1, 1],
            vec![1, 1, 0],
            vec![1, 0, 0],
            vec![0, 0, 0],
        ],
        vec![
            vec![0, 0, 0],
            vec![0, 0, 1],
            vec![0, 1, 1],
            vec![1, 1, 1],
            vec![1, 1, 0],
            vec![1, 0, 1],
            vec![0, 1, 0],
            vec![1, 0, 0],
            vec![0, 0, 0],
        ],
    ];

    let mut computed_cycles = enum_cycles_bounded_length(9, 3, 2);
    computed_cycles.sort_by_key(|x| (x.len(), x.clone()));
    assert_eq!(cycles_3_2, computed_cycles);
}

#[test]
fn test_enum_all_cycles() {
    let cycles_3_2 = vec![
        // 1-long
        vec![vec![0, 0, 0], vec![0, 0, 0]],
        vec![vec![1, 1, 1], vec![1, 1, 1]],
        // 2-long
        vec![vec![0, 1, 0], vec![1, 0, 1], vec![0, 1, 0]],
        // 3-long
        vec![vec![0, 0, 1], vec![0, 1, 0], vec![1, 0, 0], vec![0, 0, 1]],
        vec![vec![0, 1, 1], vec![1, 1, 0], vec![1, 0, 1], vec![0, 1, 1]],
        // 4-long
        vec![
            vec![0, 0, 0],
            vec![0, 0, 1],
            vec![0, 1, 0],
            vec![1, 0, 0],
            vec![0, 0, 0],
        ],
        vec![
            vec![0, 0, 1],
            vec![0, 1, 1],
            vec![1, 1, 0],
            vec![1, 0, 0],
            vec![0, 0, 1],
        ],
        vec![
            vec![0, 1, 1],
            vec![1, 1, 1],
            vec![1, 1, 0],
            vec![1, 0, 1],
            vec![0, 1, 1],
        ],
        // 5-long
        vec![
            vec![0, 0, 0],
            vec![0, 0, 1],
            vec![0, 1, 1],
            vec![1, 1, 0],
            vec![1, 0, 0],
            vec![0, 0, 0],
        ],
        vec![
            vec![0, 0, 1],
            vec![0, 1, 1],
            vec![1, 1, 1],
            vec![1, 1, 0],
            vec![1, 0, 0],
            vec![0, 0, 1],
        ],
        // 6-long
        vec![
            vec![0, 0, 0],
            vec![0, 0, 1],
            vec![0, 1, 1],
            vec![1, 1, 1],
            vec![1, 1, 0],
            vec![1, 0, 0],
            vec![0, 0, 0],
        ],
        vec![
            vec![0, 0, 1],
            vec![0, 1, 0],
            vec![1, 0, 1],
            vec![0, 1, 1],
            vec![1, 1, 0],
            vec![1, 0, 0],
            vec![0, 0, 1],
        ],
        vec![
            vec![0, 0, 1],
            vec![0, 1, 1],
            vec![1, 1, 0],
            vec![1, 0, 1],
            vec![0, 1, 0],
            vec![1, 0, 0],
            vec![0, 0, 1],
        ],
        // 7-long
        vec![
            vec![0, 0, 0],
            vec![0, 0, 1],
            vec![0, 1, 0],
            vec![1, 0, 1],
            vec![0, 1, 1],
            vec![1, 1, 0],
            vec![1, 0, 0],
            vec![0, 0, 0],
        ],
        vec![
            vec![0, 0, 0],
            vec![0, 0, 1],
            vec![0, 1, 1],
            vec![1, 1, 0],
            vec![1, 0, 1],
            vec![0, 1, 0],
            vec![1, 0, 0],
            vec![0, 0, 0],
        ],
        vec![
            vec![0, 0, 1],
            vec![0, 1, 0],
            vec![1, 0, 1],
            vec![0, 1, 1],
            vec![1, 1, 1],
            vec![1, 1, 0],
            vec![1, 0, 0],
            vec![0, 0, 1],
        ],
        vec![
            vec![0, 0, 1],
            vec![0, 1, 1],
            vec![1, 1, 1],
            vec![1, 1, 0],
            vec![1, 0, 1],
            vec![0, 1, 0],
            vec![1, 0, 0],
            vec![0, 0, 1],
        ],
        // 8-long
        vec![
            vec![0, 0, 0],
            vec![0, 0, 1],
            vec![0, 1, 0],
            vec![1, 0, 1],
            vec![0, 1, 1],
            vec![1, 1, 1],
            vec![1, 1, 0],
            vec![1, 0, 0],
            vec![0, 0, 0],
        ],
        vec![
            vec![0, 0, 0],
            vec![0, 0, 1],
            vec![0, 1, 1],
            vec![1, 1, 1],
            vec![1, 1, 0],
            vec![1, 0, 1],
            vec![0, 1, 0],
            vec![1, 0, 0],
            vec![0, 0, 0],
        ],
    ];

    let mut computed_cycles = enum_all_cycles(3, 2);
    computed_cycles.sort_by_key(|x| (x.len(), x.clone()));
    assert_eq!(cycles_3_2, computed_cycles);
}
