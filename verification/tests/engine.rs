//! Tests of the sort-state machine: toggling, setting, the builder, and
//! the engine-driven sort.

use std::cmp::Ordering;

use sortable::{
    use_sorter, Direction, NullHandling, PartialOrdBy, SortBy, Sortable, UseSorterBuilder,
};

#[derive(Clone, Debug, PartialEq)]
struct Person {
    name: &'static str,
    age: f64,
}

fn person(name: &'static str, age: f64) -> Person {
    Person { name, age }
}

#[derive(Copy, Clone, Debug, PartialEq)]
enum PersonField {
    /// Reversible, initially ascending.
    Name,
    /// Fixed descending.
    Age,
    /// Unsortable.
    Notes,
}

impl Default for PersonField {
    fn default() -> Self {
        PersonField::Name
    }
}

impl PartialOrdBy<Person> for PersonField {
    fn partial_cmp_by_spec(&self, a: Person, b: Person) -> Option<Ordering> {
        self.partial_cmp_by(&a, &b)
    }

    fn partial_cmp_by(&self, a: &Person, b: &Person) -> Option<Ordering> {
        match self {
            Self::Name => a.name.partial_cmp(b.name),
            Self::Age => a.age.partial_cmp(&b.age),
            Self::Notes => None,
        }
    }
}

impl Sortable for PersonField {
    fn sort_by_spec(&self) -> Option<SortBy> {
        self.sort_by()
    }

    fn null_handling_spec(&self) -> NullHandling {
        self.null_handling()
    }

    fn sort_by(&self) -> Option<SortBy> {
        match self {
            Self::Name => SortBy::increasing_or_decreasing(),
            Self::Age => SortBy::decreasing(),
            Self::Notes => SortBy::unsortable(),
        }
    }

    fn null_handling(&self) -> NullHandling {
        NullHandling::Last
    }

    fn same_field(&self, other: &Self) -> bool {
        self == other
    }
}

#[test]
fn test_initial_state() {
    let sorter = use_sorter::<PersonField>();
    let (field, dir) = sorter.get_state();
    assert_eq!(*field, PersonField::Name);
    assert_eq!(*dir, Direction::Ascending);
}

#[test]
fn test_toggle_field() {
    let mut sorter = use_sorter::<PersonField>();

    // re-clicking the active reversible field inverts the direction,
    // and a second re-click restores it
    sorter.toggle_field(PersonField::Name);
    assert_eq!(sorter.get_state(), (&PersonField::Name, &Direction::Descending));
    sorter.toggle_field(PersonField::Name);
    assert_eq!(sorter.get_state(), (&PersonField::Name, &Direction::Ascending));

    // a fixed field always lands on its one legal direction
    sorter.toggle_field(PersonField::Age);
    assert_eq!(sorter.get_state(), (&PersonField::Age, &Direction::Descending));
    // toggled while already active, the state stays put: no inversion ever
    // occurs for fixed fields
    sorter.toggle_field(PersonField::Age);
    assert_eq!(sorter.get_state(), (&PersonField::Age, &Direction::Descending));

    // an unsortable field is ignored
    sorter.toggle_field(PersonField::Notes);
    assert_eq!(sorter.get_state(), (&PersonField::Age, &Direction::Descending));

    // switching back to a reversible field starts over in its configured
    // initial direction, not the previous field's direction
    sorter.toggle_field(PersonField::Name);
    assert_eq!(sorter.get_state(), (&PersonField::Name, &Direction::Ascending));
}

#[test]
fn test_set_field_is_absolute() {
    let mut sorter = use_sorter::<PersonField>();

    sorter.set_field(PersonField::Name, Direction::Descending);
    assert_eq!(sorter.get_state(), (&PersonField::Name, &Direction::Descending));
    // setting the same state twice produces the same state, never a toggle
    sorter.set_field(PersonField::Name, Direction::Descending);
    assert_eq!(sorter.get_state(), (&PersonField::Name, &Direction::Descending));

    // an invalid direction on a fixed field is clamped, not rejected
    sorter.set_field(PersonField::Age, Direction::Ascending);
    assert_eq!(sorter.get_state(), (&PersonField::Age, &Direction::Descending));

    // an unsortable field is ignored
    sorter.set_field(PersonField::Notes, Direction::Ascending);
    assert_eq!(sorter.get_state(), (&PersonField::Age, &Direction::Descending));
}

#[test]
fn test_builder() {
    let sorter = UseSorterBuilder::<PersonField>::default().use_sorter();
    assert_eq!(sorter.get_state(), (&PersonField::Name, &Direction::Ascending));

    let sorter = UseSorterBuilder::default()
        .with_field(PersonField::Name)
        .with_direction(Direction::Descending)
        .use_sorter();
    assert_eq!(sorter.get_state(), (&PersonField::Name, &Direction::Descending));

    // a direction the preset field does not permit is clamped
    let sorter = UseSorterBuilder::default()
        .with_field(PersonField::Age)
        .with_direction(Direction::Ascending)
        .use_sorter();
    assert_eq!(sorter.get_state(), (&PersonField::Age, &Direction::Descending));

    // an unsortable preset field is ignored and the default initial state
    // stands
    let sorter = UseSorterBuilder::default()
        .with_field(PersonField::Notes)
        .use_sorter();
    assert_eq!(sorter.get_state(), (&PersonField::Name, &Direction::Ascending));
}

#[test]
fn test_sorter_sort_and_toggle() {
    let mut sorter = use_sorter::<PersonField>();
    let mut rows = vec![person("b", 2.0), person("a", 1.0), person("c", 3.0)];
    sorter.sort(&mut rows);
    assert_eq!(rows, vec![person("a", 1.0), person("b", 2.0), person("c", 3.0)]);

    sorter.toggle_field(PersonField::Name);
    sorter.sort(&mut rows);
    assert_eq!(rows, vec![person("c", 3.0), person("b", 2.0), person("a", 1.0)]);
}

#[derive(Clone, Debug, PartialEq)]
struct Val(f64);

#[derive(Copy, Clone, Debug, PartialEq)]
enum ValField {
    Value,
}

impl Default for ValField {
    fn default() -> Self {
        ValField::Value
    }
}

impl PartialOrdBy<Val> for ValField {
    fn partial_cmp_by_spec(&self, a: Val, b: Val) -> Option<Ordering> {
        self.partial_cmp_by(&a, &b)
    }

    fn partial_cmp_by(&self, a: &Val, b: &Val) -> Option<Ordering> {
        match self {
            Self::Value => a.0.partial_cmp(&b.0),
        }
    }
}

impl Sortable for ValField {
    fn sort_by_spec(&self) -> Option<SortBy> {
        self.sort_by()
    }

    fn null_handling_spec(&self) -> NullHandling {
        self.null_handling()
    }

    fn sort_by(&self) -> Option<SortBy> {
        SortBy::increasing_or_decreasing()
    }

    fn null_handling(&self) -> NullHandling {
        NullHandling::Last
    }

    fn same_field(&self, other: &Self) -> bool {
        self == other
    }
}

/// Field `Value`, nulls last, ascending over `[2.0, 1.0, 3.0]` sorts to
/// `[1.0, 2.0, 3.0]`; toggling the same field re-sorts to
/// `[3.0, 2.0, 1.0]`.
#[test]
fn test_toggle_resorts_values() {
    let mut sorter = use_sorter::<ValField>();
    let mut rows = vec![Val(2.0), Val(1.0), Val(3.0)];
    sorter.sort(&mut rows);
    assert_eq!(rows, vec![Val(1.0), Val(2.0), Val(3.0)]);

    sorter.toggle_field(ValField::Value);
    sorter.sort(&mut rows);
    assert_eq!(rows, vec![Val(3.0), Val(2.0), Val(1.0)]);
}

#[test]
fn test_descriptor_values() {
    assert_eq!(SortBy::unsortable(), None);
    assert_eq!(SortBy::increasing(), Some(SortBy::Fixed(Direction::Ascending)));
    assert_eq!(SortBy::decreasing(), Some(SortBy::Fixed(Direction::Descending)));
    assert_eq!(
        SortBy::increasing_or_decreasing(),
        Some(SortBy::Reversible(Direction::Ascending))
    );
    assert_eq!(
        SortBy::decreasing_or_increasing(),
        Some(SortBy::Reversible(Direction::Descending))
    );
    assert_eq!(SortBy::default(), SortBy::Reversible(Direction::Ascending));
    assert_eq!(SortBy::Fixed(Direction::Descending).direction(), Direction::Descending);
    assert_eq!(SortBy::Reversible(Direction::Descending).direction(), Direction::Descending);
    assert_eq!(NullHandling::default(), NullHandling::Last);
    assert_eq!(Direction::Ascending.invert(), Direction::Descending);
    assert_eq!(Direction::Descending.invert(), Direction::Ascending);
}
