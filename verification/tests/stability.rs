//! Stability tests: rows that compare equal under the active field —
//! including rows that are both `NULL` — keep their original relative
//! order.

use std::cmp::Ordering;

use sortable::{sort_by, Direction, NullHandling, PartialOrdBy};

/// A row with a sort key and a tag the comparator never looks at.
#[derive(Clone, Debug, PartialEq)]
struct Tagged {
    key: f64,
    tag: char,
}

fn tagged(key: f64, tag: char) -> Tagged {
    Tagged { key, tag }
}

#[derive(Copy, Clone, Debug, PartialEq)]
enum TaggedField {
    Key,
}

impl PartialOrdBy<Tagged> for TaggedField {
    fn partial_cmp_by_spec(&self, a: Tagged, b: Tagged) -> Option<Ordering> {
        self.partial_cmp_by(&a, &b)
    }

    fn partial_cmp_by(&self, a: &Tagged, b: &Tagged) -> Option<Ordering> {
        match self {
            Self::Key => a.key.partial_cmp(&b.key),
        }
    }
}

#[test]
fn test_stability_equal_keys() {
    let mut rows = vec![
        tagged(1.0, 'a'),
        tagged(0.5, 'b'),
        tagged(1.0, 'c'),
        tagged(0.5, 'd'),
        tagged(1.0, 'e'),
    ];
    sort_by(&TaggedField::Key, Direction::Ascending, NullHandling::Last, &mut rows);
    let tags: Vec<char> = rows.iter().map(|r| r.tag).collect();
    assert_eq!(tags, vec!['b', 'd', 'a', 'c', 'e']);
}

#[test]
fn test_stability_null_rows() {
    let mut rows = vec![
        tagged(f64::NAN, 'a'),
        tagged(2.0, 'b'),
        tagged(f64::NAN, 'c'),
        tagged(1.0, 'd'),
        tagged(f64::NAN, 'e'),
    ];
    sort_by(&TaggedField::Key, Direction::Descending, NullHandling::Last, &mut rows);
    let tags: Vec<char> = rows.iter().map(|r| r.tag).collect();
    // the three NaN rows are a suffix in their original order, whatever the
    // direction
    assert_eq!(tags, vec!['b', 'd', 'a', 'c', 'e']);

    let mut rows = vec![
        tagged(f64::NAN, 'a'),
        tagged(2.0, 'b'),
        tagged(f64::NAN, 'c'),
        tagged(1.0, 'd'),
        tagged(f64::NAN, 'e'),
    ];
    sort_by(&TaggedField::Key, Direction::Ascending, NullHandling::First, &mut rows);
    let tags: Vec<char> = rows.iter().map(|r| r.tag).collect();
    assert_eq!(tags, vec!['a', 'c', 'e', 'd', 'b']);
}

#[test]
fn test_repeated_sort_is_deterministic() {
    let mut rows = vec![
        tagged(1.0, 'a'),
        tagged(1.0, 'b'),
        tagged(0.0, 'c'),
    ];
    sort_by(&TaggedField::Key, Direction::Ascending, NullHandling::Last, &mut rows);
    let once: Vec<char> = rows.iter().map(|r| r.tag).collect();
    sort_by(&TaggedField::Key, Direction::Ascending, NullHandling::Last, &mut rows);
    let twice: Vec<char> = rows.iter().map(|r| r.tag).collect();
    assert_eq!(once, vec!['c', 'a', 'b']);
    assert_eq!(once, twice);
}
