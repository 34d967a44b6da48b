use logic_minimizer::minimizer::{covers_minterm, minimize, try_minimize, MinimizeError};
use logic_minimizer::ternary::{Bit, BitList};

fn bl(bits: &[Bit]) -> BitList {
    BitList(bits.to_vec())
}

fn set_eq(a: &[BitList], b: &[BitList]) -> bool {
    a.len() == b.len() && a.iter().all(|x| b.iter().any(|y| x == y)) && b.iter().all(|x| {
        a.iter().any(|y| x == y)
    })
}

#[test]
fn empty_input_gives_empty_result() {
    for n in 1..=16usize {
        let result = minimize(n, &vec![]);
        assert!(result.is_empty());
    }
}

#[test]
fn full_table_collapses_to_all_dont_care() {
    for n in 1..=4usize {
        let minterms: Vec<usize> = (0..(1usize << n)).collect();
        let result = minimize(n, &minterms);
        let expected = bl(&vec![Bit::DontCare; n]);
        assert_eq!(result.len(), 1);
        assert!(result[0] == expected);
    }
}

#[test]
fn single_minterm_two_vars() {
    let result = minimize(2, &vec![3]);
    assert!(set_eq(&result, &[bl(&[Bit::One, Bit::One])]));
}

#[test]
fn adjacent_pair_combines() {
    // Rows 0 and 1 differ only in bit 0, so they merge into one implicant
    // with DontCare at position 0.
    let result = minimize(2, &vec![0, 1]);
    assert!(set_eq(&result, &[bl(&[Bit::DontCare, Bit::Zero])]));
}

#[test]
fn non_combinable_pair_survives() {
    // Rows 0 and 3 differ in both bits: neither combines, both stay.
    let result = minimize(2, &vec![0, 3]);
    assert!(set_eq(
        &result,
        &[bl(&[Bit::Zero, Bit::Zero]), bl(&[Bit::One, Bit::One])]
    ));
}

#[test]
fn xor_function_is_not_reducible() {
    let result = minimize(2, &vec![1, 2]);
    assert!(set_eq(
        &result,
        &[bl(&[Bit::One, Bit::Zero]), bl(&[Bit::Zero, Bit::One])]
    ));
}

#[test]
fn three_of_four_rows() {
    // Rows {0, 1, 3}: both pairs (0,1) and (1,3) combine, row 1 is shared.
    let result = minimize(2, &vec![0, 1, 3]);
    assert!(set_eq(
        &result,
        &[bl(&[Bit::DontCare, Bit::Zero]), bl(&[Bit::One, Bit::DontCare])]
    ));
}

#[test]
fn rerunning_minimize_yields_equal_sets() {
    let minterms = vec![0, 1, 3, 5, 7, 11, 13];
    let first = minimize(4, &minterms);
    let second = minimize(4, &minterms);
    assert!(set_eq(&first, &second));
    let reordered = vec![13, 11, 7, 5, 3, 1, 0];
    let third = minimize(4, &reordered);
    assert!(set_eq(&first, &third));
}

#[test]
fn implicant_lengths_match_variable_count() {
    for n in 1..=6usize {
        let minterms: Vec<usize> = (0..(1usize << n)).step_by(3).collect();
        for imp in minimize(n, &minterms) {
            assert_eq!(imp.0.len(), n);
        }
    }
}

#[test]
fn duplicate_minterms_are_merged() {
    let result = minimize(2, &vec![3, 3, 3]);
    assert!(set_eq(&result, &[bl(&[Bit::One, Bit::One])]));
}

#[test]
fn covers_minterm_reads_dont_care_positions() {
    let imp = bl(&[Bit::DontCare, Bit::Zero, Bit::One]);
    // Covered rows: x1 = 0, x2 = 1, x0 free: indices 4 and 5.
    for m in 0..8usize {
        assert_eq!(covers_minterm(&imp, m), m == 4 || m == 5);
    }
}

#[test]
fn every_minterm_covered_and_nothing_else() {
    // A fixed linear congruence drives the row choices, so the test is
    // deterministic while exercising many shapes.
    let mut seed: u64 = 0x2545f4914f6cdd1d;
    for n in 1..=6usize {
        for _trial in 0..8 {
            let size = 1usize << n;
            let mut minterms: Vec<usize> = Vec::new();
            for m in 0..size {
                seed = seed
                    .wrapping_mul(6364136223846793005)
                    .wrapping_add(1442695040888963407);
                if (seed >> 33) & 1 == 1 {
                    minterms.push(m);
                }
            }
            let result = minimize(n, &minterms);
            for &m in &minterms {
                assert!(result.iter().any(|imp| covers_minterm(imp, m)));
            }
            for imp in &result {
                assert_eq!(imp.0.len(), n);
                for m in 0..size {
                    if covers_minterm(imp, m) {
                        assert!(minterms.contains(&m));
                    }
                }
            }
            if minterms.is_empty() {
                assert!(result.is_empty());
            }
        }
    }
}

#[test]
fn try_minimize_rejects_zero_variables() {
    assert_eq!(
        try_minimize(0, &vec![]),
        Err(MinimizeError::InvalidVariableCount)
    );
}

#[test]
fn try_minimize_rejects_seventeen_variables() {
    assert_eq!(
        try_minimize(17, &vec![0]),
        Err(MinimizeError::InvalidVariableCount)
    );
}

#[test]
fn try_minimize_rejects_row_out_of_range() {
    assert_eq!(
        try_minimize(2, &vec![0, 4]),
        Err(MinimizeError::MintermOutOfRange)
    );
    assert_eq!(
        try_minimize(1, &vec![2]),
        Err(MinimizeError::MintermOutOfRange)
    );
}

#[test]
fn try_minimize_accepts_valid_input() {
    let result = try_minimize(2, &vec![0, 3]).unwrap();
    assert!(set_eq(
        &result,
        &[bl(&[Bit::Zero, Bit::Zero]), bl(&[Bit::One, Bit::One])]
    ));
}

#[test]
fn bitlist_equality_is_structural() {
    assert!(bl(&[Bit::One, Bit::Zero]) == bl(&[Bit::One, Bit::Zero]));
    assert!(bl(&[Bit::One, Bit::Zero]) != bl(&[Bit::Zero, Bit::One]));
    assert!(bl(&[Bit::One]) != bl(&[Bit::One, Bit::One]));
    assert!(bl(&[]) == bl(&[]));
    assert!(bl(&[Bit::DontCare]) != bl(&[Bit::One]));
}

#[test]
fn bitlist_clone_preserves_bits() {
    let a = bl(&[Bit::One, Bit::DontCare, Bit::Zero]);
    let b = a.clone();
    assert!(a == b);
}

#[test]
fn count_ones_skips_dont_cares() {
    assert_eq!(bl(&[Bit::One, Bit::DontCare, Bit::One, Bit::Zero]).count_ones(), 2);
    assert_eq!(bl(&[]).count_ones(), 0);
    assert_eq!(bl(&[Bit::DontCare]).count_ones(), 0);
}
