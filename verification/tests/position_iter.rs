use fabrik::{Position, PositionIter};

#[test]
fn emits_fields_in_expected_order() {
    let mut iterator = PositionIter::from_first_field();

    for &value in &[
        Position::from_index(0),
        Position::from_index(1),
        Position::from_index(2),
    ] {
        assert_eq!(iterator.next(), Some(value));
        assert_eq!(value.row(), 0);
    }

    for _val in 0..75 {
        iterator.next();
    }

    for &value in &[
        Position::from_index(8 * 9 + 6),
        Position::from_index(8 * 9 + 7),
        Position::from_index(8 * 9 + 8),
    ] {
        assert_eq!(iterator.next(), Some(value));
        assert_eq!(value.row(), 8);
    }

    assert!(iterator.next().is_none());
}
