//! Tests of the comparator sort on rows whose field value is a float, with
//! NaN as the `NULL` case.

use std::cmp::Ordering;

use sortable::{sort_by, Direction, NullHandling, PartialOrdBy};

#[derive(Clone, Debug, Default, PartialEq)]
struct Row(f64);

#[derive(Copy, Clone, Debug, PartialEq)]
enum RowField {
    Value,
}

impl Default for RowField {
    fn default() -> Self {
        RowField::Value
    }
}

impl PartialOrdBy<Row> for RowField {
    fn partial_cmp_by_spec(&self, a: Row, b: Row) -> Option<Ordering> {
        self.partial_cmp_by(&a, &b)
    }

    fn partial_cmp_by(&self, a: &Row, b: &Row) -> Option<Ordering> {
        match self {
            Self::Value => a.0.partial_cmp(&b.0),
        }
    }
}

#[test]
fn test_sort_by() {

    // Ascending
    let mut rows = vec![Row(2.0), Row(1.0), Row(3.0)];
    sort_by(&RowField::Value, Direction::Ascending, NullHandling::First, &mut rows);
    assert_eq!(rows, vec![Row(1.0), Row(2.0), Row(3.0)]);
    // Descending
    sort_by(&RowField::Value, Direction::Descending, NullHandling::First, &mut rows);
    assert_eq!(rows, vec![Row(3.0), Row(2.0), Row(1.0)]);

    // Nulls last, ascending
    let mut rows = vec![Row(f64::NAN), Row(f64::NAN), Row(2.0), Row(1.0), Row(3.0)];
    sort_by(&RowField::Value, Direction::Ascending, NullHandling::Last, &mut rows);
    assert_eq!(rows[0], Row(1.0));
    assert_eq!(rows[1], Row(2.0));
    assert_eq!(rows[2], Row(3.0));
    assert!(rows[3].0.is_nan());
    assert!(rows[4].0.is_nan());
    // Nulls first, ascending
    sort_by(&RowField::Value, Direction::Ascending, NullHandling::First, &mut rows);
    assert!(rows[0].0.is_nan());
    assert!(rows[1].0.is_nan());
    assert_eq!(rows[2], Row(1.0));
    assert_eq!(rows[3], Row(2.0));
    assert_eq!(rows[4], Row(3.0));

    // Nulls last, descending
    sort_by(&RowField::Value, Direction::Descending, NullHandling::Last, &mut rows);
    assert_eq!(rows[0], Row(3.0));
    assert_eq!(rows[1], Row(2.0));
    assert_eq!(rows[2], Row(1.0));
    assert!(rows[3].0.is_nan());
    assert!(rows[4].0.is_nan());
    // Nulls first, descending
    sort_by(&RowField::Value, Direction::Descending, NullHandling::First, &mut rows);
    assert!(rows[0].0.is_nan());
    assert!(rows[1].0.is_nan());
    assert_eq!(rows[2], Row(3.0));
    assert_eq!(rows[3], Row(2.0));
    assert_eq!(rows[4], Row(1.0));
}

/// The nulls-first scenario: NaN rows stay a prefix in both directions.
#[test]
fn test_nulls_first_both_directions() {

    let mut rows = vec![Row(f64::NAN), Row(f64::NAN), Row(2.0), Row(1.0), Row(3.0)];
    sort_by(&RowField::Value, Direction::Ascending, NullHandling::First, &mut rows);
    assert!(rows[0].0.is_nan());
    assert!(rows[1].0.is_nan());
    assert_eq!(rows[2], Row(1.0));
    assert_eq!(rows[3], Row(2.0));
    assert_eq!(rows[4], Row(3.0));

    let mut rows = vec![Row(f64::NAN), Row(f64::NAN), Row(2.0), Row(1.0), Row(3.0)];
    sort_by(&RowField::Value, Direction::Descending, NullHandling::First, &mut rows);
    assert!(rows[0].0.is_nan());
    assert!(rows[1].0.is_nan());
    assert_eq!(rows[2], Row(3.0));
    assert_eq!(rows[3], Row(2.0));
    assert_eq!(rows[4], Row(1.0));
}

/// Sorting ascending and then reversing equals sorting descending, on
/// all-distinct, all-ordered rows.
#[test]
fn test_direction_symmetry_instance() {

    let input = vec![Row(2.0), Row(5.0), Row(1.0), Row(4.0), Row(3.0)];
    let mut ascending = input.clone();
    sort_by(&RowField::Value, Direction::Ascending, NullHandling::Last, &mut ascending);
    let mut descending = input.clone();
    sort_by(&RowField::Value, Direction::Descending, NullHandling::Last, &mut descending);
    let mut reversed = ascending.clone();
    reversed.reverse();
    assert_eq!(descending, reversed);
}

/// Sorting an empty or single-element collection is a no-op.
#[test]
fn test_empty_and_single() {

    let mut rows: Vec<Row> = vec![];
    sort_by(&RowField::Value, Direction::Ascending, NullHandling::Last, &mut rows);
    assert_eq!(rows, vec![]);

    let mut rows = vec![Row(7.5)];
    sort_by(&RowField::Value, Direction::Descending, NullHandling::First, &mut rows);
    assert_eq!(rows, vec![Row(7.5)]);

    let mut rows = vec![Row(f64::NAN)];
    sort_by(&RowField::Value, Direction::Ascending, NullHandling::Last, &mut rows);
    assert!(rows[0].0.is_nan());
}
