use logic_minimizer::logical_expression::{
    LogicalExpressionMessage, LogicalExpressionProperties,
};
use logic_minimizer::ternary::{Bit, BitList};

fn bl(bits: &[Bit]) -> BitList {
    BitList(bits.to_vec())
}

fn expr_set_eq(a: &[BitList], b: &[BitList]) -> bool {
    a.len() == b.len() && a.iter().all(|x| b.iter().any(|y| x == y)) && b.iter().all(|x| {
        a.iter().any(|y| x == y)
    })
}

#[test]
fn default_state_has_one_variable_and_no_rows() {
    let st = LogicalExpressionProperties::default();
    assert_eq!(st.num_args, 1);
    assert!(st.bit_state.is_empty());
    assert!(st.expression.is_empty());
}

#[test]
fn ignore_changes_nothing() {
    let mut st = LogicalExpressionProperties::default();
    let redraw = st.update(LogicalExpressionMessage::Ignore);
    assert!(!redraw);
    assert_eq!(st.num_args, 1);
    assert!(st.bit_state.is_empty());
    assert!(st.expression.is_empty());
}

#[test]
fn plus_col_grows_until_sixteen() {
    let mut st = LogicalExpressionProperties::default();
    for expected in 2..=16usize {
        let redraw = st.update(LogicalExpressionMessage::PlusCol);
        assert!(redraw);
        assert_eq!(st.num_args, expected);
    }
    let redraw = st.update(LogicalExpressionMessage::PlusCol);
    assert!(!redraw);
    assert_eq!(st.num_args, 16);
}

#[test]
fn minus_col_stops_at_one() {
    let mut st = LogicalExpressionProperties::default();
    let redraw = st.update(LogicalExpressionMessage::MinusCol);
    assert!(!redraw);
    assert_eq!(st.num_args, 1);
}

#[test]
fn flip_state_toggles_a_row() {
    let mut st = LogicalExpressionProperties::default();
    let redraw = st.update(LogicalExpressionMessage::FlipState(0));
    assert!(!redraw);
    assert_eq!(st.bit_state, vec![0]);
    st.update(LogicalExpressionMessage::FlipState(1));
    assert!(st.bit_state.contains(&0) && st.bit_state.contains(&1));
    st.update(LogicalExpressionMessage::FlipState(0));
    assert_eq!(st.bit_state, vec![1]);
}

#[test]
fn flipped_rows_drive_the_expression() {
    let mut st = LogicalExpressionProperties::default();
    st.update(LogicalExpressionMessage::PlusCol);
    assert_eq!(st.num_args, 2);
    st.update(LogicalExpressionMessage::FlipState(0));
    st.update(LogicalExpressionMessage::FlipState(1));
    // Rows 0 and 1 combine into the single implicant with x1 = 0.
    assert!(expr_set_eq(&st.expression, &[bl(&[Bit::DontCare, Bit::Zero])]));
    st.update(LogicalExpressionMessage::FlipState(1));
    assert!(expr_set_eq(&st.expression, &[bl(&[Bit::Zero, Bit::Zero])]));
}

#[test]
fn full_table_renders_constant_one_implicant() {
    let mut st = LogicalExpressionProperties::default();
    st.update(LogicalExpressionMessage::PlusCol);
    for row in 0..4usize {
        st.update(LogicalExpressionMessage::FlipState(row));
    }
    assert!(expr_set_eq(&st.expression, &[bl(&[Bit::DontCare, Bit::DontCare])]));
}

#[test]
fn shrinking_the_table_reuses_low_bits_of_stale_rows() {
    let mut st = LogicalExpressionProperties::default();
    st.update(LogicalExpressionMessage::PlusCol);
    st.update(LogicalExpressionMessage::FlipState(1));
    st.update(LogicalExpressionMessage::FlipState(2));
    // Back to one variable: indices 1 and 2 select rows 1 and 0 of the
    // smaller table, so the whole table is marked.
    st.update(LogicalExpressionMessage::MinusCol);
    assert_eq!(st.num_args, 1);
    assert!(expr_set_eq(&st.expression, &[bl(&[Bit::DontCare])]));
}

#[test]
fn update_expression_stores_the_given_value() {
    let mut st = LogicalExpressionProperties::default();
    let given = vec![bl(&[Bit::One])];
    let redraw = st.update(LogicalExpressionMessage::UpdateExpression(given));
    assert!(redraw);
    assert!(expr_set_eq(&st.expression, &[bl(&[Bit::One])]));
    assert_eq!(st.num_args, 1);
    assert!(st.bit_state.is_empty());
}
