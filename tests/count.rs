use dbg_cycles::count::{Count, count_cycles_only_enum, count_cycles_with_formula, nb_dbs, nb_lw};
use dbg_cycles::math::mobius;

#[test]
fn count_test_count_cycles_only_enum() {
    assert_eq!(count_cycles_only_enum(1, 3, 2), Count::FromEnum(2));
    assert_eq!(count_cycles_only_enum(2, 3, 2), Count::FromEnum(1));
    assert_eq!(count_cycles_only_enum(3, 3, 2), Count::FromEnum(2));
    assert_eq!(count_cycles_only_enum(4, 3, 2), Count::FromEnum(3));
    assert_eq!(count_cycles_only_enum(5, 3, 2), Count::FromEnum(2));
    assert_eq!(count_cycles_only_enum(6, 3, 2), Count::FromEnum(3));
    assert_eq!(count_cycles_only_enum(7, 3, 2), Count::FromEnum(4));
    assert_eq!(count_cycles_only_enum(8, 3, 2), Count::FromEnum(2));
    assert_eq!(count_cycles_only_enum(9, 3, 2), Count::FromEnum(0));
}

#[test]
fn formulae_test_count_cycles_only_enum() {
    assert_eq!(count_cycles_only_enum(1, 3, 2), Count::FromEnum(2));
    assert_eq!(count_cycles_only_enum(2, 3, 2), Count::FromEnum(1));
    assert_eq!(count_cycles_only_enum(3, 3, 2), Count::FromEnum(2));
    assert_eq!(count_cycles_only_enum(4, 3, 2), Count::FromEnum(3));
    assert_eq!(count_cycles_only_enum(5, 3, 2), Count::FromEnum(2));
    assert_eq!(count_cycles_only_enum(6, 3, 2), Count::FromEnum(3));
    assert_eq!(count_cycles_only_enum(7, 3, 2), Count::FromEnum(4));
    assert_eq!(count_cycles_only_enum(8, 3, 2), Count::FromEnum(2));
    assert_eq!(count_cycles_only_enum(9, 3, 2), Count::FromEnum(0));
}

#[test]
fn count_test_nb_dbs() {
    // Right hand side derived from OEIS's A016031
    assert_eq!(nb_dbs(2, 2), Some(1));
    assert_eq!(nb_dbs(3, 2), Some(2));
    assert_eq!(nb_dbs(4, 2), Some(16));
    assert_eq!(nb_dbs(5, 2), Some(2048));
    assert_eq!(nb_dbs(6, 2), Some(67108864));
}

#[test]
fn formulae_test_nb_dbs() {
    // Right hand side derived from OEIS's A016031
    assert_eq!(nb_dbs(2, 2), Some(1));
    assert_eq!(nb_dbs(3, 2), Some(2));
    assert_eq!(nb_dbs(4, 2), Some(16));
    assert_eq!(nb_dbs(5, 2), Some(2048));
    assert_eq!(nb_dbs(6, 2), Some(67108864));
}

#[test]
fn count_test_nb_lw() {
    let a001037 = [
        1, 2, 1, 2, 3, 6, 9, 18, 30, 56, 99, 186, 335, 630, 1161, 2182, 4080, 7710, 14532, 27594,
        52377, 99858, 190557, 364722, 698870, 1342176,
    ];
    for i in 1..a001037.len() {
        assert_eq!(nb_lw(i, 2), Some(a001037[i]));
    }
}

#[test]
fn formulae_test_nb_lw() {
    let a001037 = [
        1, 2, 1, 2, 3, 6, 9, 18, 30, 56, 99, 186, 335, 630, 1161, 2182, 4080, 7710, 14532, 27594,
        52377, 99858, 190557, 364722, 698870, 1342176,
    ];
    for i in 1..a001037.len() {
        assert_eq!(nb_lw(i, 2), Some(a001037[i]));
    }
}

#[test]
fn count_test_count_cycles_with_formula() {
    // Not only formula (calling count_cycles_with_enum to the rescue)
    assert_eq!(
        count_cycles_with_formula(1, 3, 2, false)
            .to_option()
            .unwrap(),
        2
    );
    assert_eq!(
        count_cycles_with_formula(2, 3, 2, false)
            .to_option()
            .unwrap(),
        1
    );
    assert_eq!(
        count_cycles_with_formula(3, 3, 2, false)
            .to_option()
            .unwrap(),
        2
    );
    assert_eq!(
        count_cycles_with_formula(4, 3, 2, false)
            .to_option()
            .unwrap(),
        3
    );
    assert_eq!(
        count_cycles_with_formula(5, 3, 2, false)
            .to_option()
            .unwrap(),
        2
    );
    assert_eq!(
        count_cycles_with_formula(6, 3, 2, false)
            .to_option()
            .unwrap(),
        3
    );
    assert_eq!(
        count_cycles_with_formula(7, 3, 2, false)
            .to_option()
            .unwrap(),
        4
    );
    assert_eq!(
        count_cycles_with_formula(8, 3, 2, false)
            .to_option()
            .unwrap(),
        2
    );
    assert_eq!(
        count_cycles_with_formula(9, 3, 2, false)
            .to_option()
            .unwrap(),
        0
    );

    // Only formula (stating Count::NoFormula when stucked)
    assert_eq!(
        count_cycles_with_formula(1, 3, 2, true).to_option(),
        Some(2)
    );
    assert_eq!(
        count_cycles_with_formula(2, 3, 2, true).to_option(),
        Some(1)
    );
    assert_eq!(
        count_cycles_with_formula(3, 3, 2, true).to_option(),
        Some(2)
    );
    assert_eq!(
        count_cycles_with_formula(4, 3, 2, true).to_option(),
        Some(3)
    );
    assert_eq!(
        count_cycles_with_formula(5, 3, 2, true).to_option(),
        Some(2)
    );
    assert_eq!(
        count_cycles_with_formula(6, 3, 2, true).to_option(),
        Some(3)
    );
    assert_eq!(count_cycles_with_formula(7, 3, 2, true).to_option(), None);
    assert_eq!(
        count_cycles_with_formula(8, 3, 2, true).to_option(),
        Some(2)
    );
    assert_eq!(count_cycles_with_formula(9, 3, 2, true).to_option(), None);
}

#[test]
fn formulae_test_count_cycles_with_formula() {
    // Not only formula (calling count_cycles_with_enum to the rescue)
    assert_eq!(
        count_cycles_with_formula(1, 3, 2, false)
            .to_option()
            .unwrap(),
        2
    );
    assert_eq!(
        count_cycles_with_formula(2, 3, 2, false)
            .to_option()
            .unwrap(),
        1
    );
    assert_eq!(
        count_cycles_with_formula(3, 3, 2, false)
            .to_option()
            .unwrap(),
        2
    );
    assert_eq!(
        count_cycles_with_formula(4, 3, 2, false)
            .to_option()
            .unwrap(),
        3
    );
    assert_eq!(
        count_cycles_with_formula(5, 3, 2, false)
            .to_option()
            .unwrap(),
        2
    );
    assert_eq!(
        count_cycles_with_formula(6, 3, 2, false)
            .to_option()
            .unwrap(),
        3
    );
    assert_eq!(
        count_cycles_with_formula(7, 3, 2, false)
            .to_option()
            .unwrap(),
        4
    );
    assert_eq!(
        count_cycles_with_formula(8, 3, 2, false)
            .to_option()
            .unwrap(),
        2
    );
    assert_eq!(
        count_cycles_with_formula(9, 3, 2, false)
            .to_option()
            .unwrap(),
        0
    );

    // Only formula (stating Count::NoFormula when stucked)
    assert_eq!(
        count_cycles_with_formula(1, 3, 2, true).to_option(),
        Some(2)
    );
    assert_eq!(
        count_cycles_with_formula(2, 3, 2, true).to_option(),
        Some(1)
    );
    assert_eq!(
        count_cycles_with_formula(3, 3, 2, true).to_option(),
        Some(2)
    );
    assert_eq!(
        count_cycles_with_formula(4, 3, 2, true).to_option(),
        Some(3)
    );
    assert_eq!(
        count_cycles_with_formula(5, 3, 2, true).to_option(),
        Some(2)
    );
    assert_eq!(
        count_cycles_with_formula(6, 3, 2, true).to_option(),
        Some(3)
    );
    assert_eq!(count_cycles_with_formula(7, 3, 2, true).to_option(), None);
    assert_eq!(
        count_cycles_with_formula(8, 3, 2, true).to_option(),
        Some(2)
    );
    assert_eq!(count_cycles_with_formula(9, 3, 2, true).to_option(), None);
}

#[test]
fn math_test_mobius() {
    let a008683 = [
        0, 1, -1, -1, 0, -1, 1, -1, 0, 0, 1, -1, 0, -1, 1, 1, 0, -1, 0, -1, 0, 1, 1, -1, 0, 0, 1,
        0, 0, -1, -1, -1, 0, 1,
    ];
    for i in 1..a008683.len() {
        assert_eq!(mobius(i), a008683[i]);
    }
}

#[test]
fn formulae_test_mobius() {
    let a008683 = [
        0, 1, -1, -1, 0, -1, 1, -1, 0, 0, 1, -1, 0, -1, 1, 1, 0, -1, 0, -1, 0, 1, 1, -1, 0, 0, 1,
        0, 0, -1, -1, -1, 0, 1,
    ];
    for i in 1..a008683.len() {
        assert_eq!(mobius(i), a008683[i]);
    }
}
