//! The sort engine: the collaborator traits a consumer implements for its
//! row and field types, and the state machine tracking the active
//! `(field, direction)` pair.

use vstd::prelude::*;

use crate::descriptor::{Direction, NullHandling, SortBy};

verus! {

/// Comparison of two rows of type `T` by a field.  Implemented on the field
/// enum of the consumer's row type.
///
/// A result of `None` marks a pair whose order is undefined; such values are
/// treated as `NULL`, in the sense of SQL's `ORDER BY`.  A convenient source
/// of such comparisons is `PartialOrd::partial_cmp`, which returns `None` for
/// `f64::NAN`, so NaN values are treated as `NULL` as expected.
///
/// The implementation must make `partial_cmp_by` agree with the pure
/// function `partial_cmp_by_spec`; self-comparison of a row must return
/// `None` exactly when the row's value for the field is itself a `NULL`
/// value, since that is how the sort classifies which side of an unordered
/// pair is `NULL`.
pub trait PartialOrdBy<T>: PartialEq + Sized {
    /// What comparing two rows by this field yields.
    spec fn partial_cmp_by_spec(&self, a: T, b: T) -> Option<core::cmp::Ordering>;

    /// Compare two rows of type `T` by this field.  `None` marks an
    /// unordered (`NULL`) pair.
    fn partial_cmp_by(&self, a: &T, b: &T) -> (r: Option<core::cmp::Ordering>)
        ensures
            r == self.partial_cmp_by_spec(*a, *b),
    ;
}

/// Describes how a field may be sorted.  Implemented on the field enum.
///
/// Together with [`PartialOrdBy`] this mirrors the SQL `ORDER BY` clause
/// `ORDER BY expression [ ASC | DESC ] [ NULLS { FIRST | LAST } ]`: the
/// expression is the field, `ASC`/`DESC` is the [`Direction`] granted by
/// [`SortBy`], and `NULLS FIRST|LAST` is the field's [`NullHandling`].
pub trait Sortable: PartialEq + Sized {
    /// The descriptor `sort_by` yields.
    spec fn sort_by_spec(&self) -> Option<SortBy>;

    /// The placement `null_handling` yields.
    spec fn null_handling_spec(&self) -> NullHandling;

    /// How this field may be sorted; `None` marks an unsortable field.
    fn sort_by(&self) -> (r: Option<SortBy>)
        ensures
            r == self.sort_by_spec(),
    ;

    /// Where rows whose comparison by this field is undefined are placed.
    /// The conventional choice is [`NullHandling::Last`].
    fn null_handling(&self) -> (r: NullHandling)
        ensures
            r == self.null_handling_spec(),
    ;

    /// Whether the two fields are the same: `==` with its meaning pinned
    /// down, since a re-click of the active field is what inverts the
    /// direction.  For a field enum deriving `PartialEq` and `Structural`
    /// the body `self == other` proves this as it stands.
    fn same_field(&self, other: &Self) -> (r: bool)
        ensures
            r == (*self == *other),
    ;
}

/// The direction a field starts in when it becomes active: the direction of
/// its descriptor, or ascending for a field with no descriptor (which can
/// only be the initial default field, since an unsortable field is never
/// activated).
pub open spec fn initial_direction<F: Sortable>(field: F) -> Direction {
    match field.sort_by_spec() {
        Some(sb) => sb.spec_direction(),
        None => Direction::Ascending,
    }
}

impl Direction {
    fn from_field<F: Sortable>(field: &F) -> (r: Direction)
        ensures
            r == initial_direction(*field),
    {
        match field.sort_by() {
            Some(sb) => sb.direction(),
            None => Direction::Ascending,
        }
    }
}

/// The invariant of the engine state `(field, dir)`: the direction is one
/// the active field's descriptor permits.  A field with no descriptor can
/// only be the initial default field, which starts ascending and is never
/// returned to once left.
pub open spec fn state_inv<F: Sortable>(field: F, dir: Direction) -> bool {
    match field.sort_by_spec() {
        Some(sb) => sb.permits(dir),
        None => dir == Direction::Ascending,
    }
}

/// The state [`UseSorter::toggle_field`] moves `(field, dir)` to when the
/// header of `target` is clicked: an unsortable target leaves the state
/// alone; a `Fixed` target always resets to its one legal direction; a
/// `Reversible` target inverts the direction when re-clicked and otherwise
/// starts over in its configured initial direction.
pub open spec fn spec_toggle_field<F: Sortable>(
    field: F,
    dir: Direction,
    target: F,
) -> (F, Direction) {
    match target.sort_by_spec() {
        None => (field, dir),
        Some(SortBy::Fixed(d)) => (target, d),
        Some(SortBy::Reversible(d)) => if target == field {
            (target, dir.spec_invert())
        } else {
            (target, d)
        },
    }
}

/// The state [`UseSorter::set_field`] moves `(field, dir)` to: an unsortable
/// target leaves the state alone, otherwise the target becomes active with
/// the requested direction corrected to one its descriptor permits.  Unlike
/// a toggle this never inverts, so it is absolute and idempotent.
pub open spec fn spec_set_field<F: Sortable>(
    field: F,
    dir: Direction,
    target: F,
    requested: Direction,
) -> (F, Direction) {
    match target.sort_by_spec() {
        None => (field, dir),
        Some(sb) => (target, sb.spec_ensure_direction(requested)),
    }
}

/// Holds the sort state of one sortable view: which field orders the rows
/// and in which direction.  Mutated only through
/// [`toggle_field`](UseSorter::toggle_field) and
/// [`set_field`](UseSorter::set_field); the host re-renders after any
/// mutating call.
#[derive(Copy, Clone, Debug, PartialEq)]
pub struct UseSorter<F> {
    field: F,
    direction: Direction,
}

impl<F> UseSorter<F> {
    /// The current `(field, direction)` pair.
    pub closed spec fn spec_state(&self) -> (F, Direction) {
        (self.field, self.direction)
    }

    /// Returns the current field and direction.  Can be used to recreate
    /// state with [`UseSorterBuilder`].
    pub fn get_state(&self) -> (r: (&F, &Direction))
        ensures
            (*r.0, *r.1) == self.spec_state(),
    {
        (&self.field, &self.direction)
    }
}

impl<F: Sortable> UseSorter<F> {
    /// The state invariant, [`state_inv`] of the current pair.
    pub open spec fn inv(&self) -> bool {
        state_inv(self.spec_state().0, self.spec_state().1)
    }

    /// Sets the sort field and toggles the direction (if applicable).
    /// Ignores unsortable fields.
    pub fn toggle_field(&mut self, field: F)
        ensures
            final(self).spec_state() == spec_toggle_field(
                old(self).spec_state().0,
                old(self).spec_state().1,
                field,
            ),
            old(self).inv() ==> final(self).inv(),
    {
        match field.sort_by() {
            None => (),  // Do nothing, don't switch to unsortable
            Some(sort_by) => {
                match sort_by {
                    SortBy::Fixed(dir) => {
                        self.direction = dir;
                    },
                    SortBy::Reversible(dir) => {
                        // Invert direction if the same field
                        let dir = if self.field.same_field(&field) {
                            self.direction.invert()
                        } else {
                            // Reset state to new field
                            dir
                        };
                        self.direction = dir;
                    },
                }
                self.field = field;
            },
        }
    }

    /// Sets the sort field and direction state directly.  Ignores unsortable
    /// fields.  Ignores the direction if not valid for a field.
    pub fn set_field(&mut self, field: F, dir: Direction)
        ensures
            final(self).spec_state() == spec_set_field(
                old(self).spec_state().0,
                old(self).spec_state().1,
                field,
                dir,
            ),
            old(self).inv() ==> final(self).inv(),
    {
        match field.sort_by() {
            None => (),  // Do nothing, ignore unsortable
            Some(sort_by) => {
                // Set state but ensure direction is valid
                let dir = sort_by.ensure_direction(dir);
                self.field = field;
                self.direction = dir;
            },
        }
    }
}

/// Creates the sort state for one view, starting on `F::default()` in that
/// field's initial direction.  See [`UseSorterBuilder`] for more advanced
/// usage.
pub fn use_sorter<F: Copy + Default + Sortable>() -> (r: UseSorter<F>)
    ensures
        call_ensures(F::default, (), r.spec_state().0),
        r.spec_state().1 == initial_direction(r.spec_state().0),
        r.inv(),
{
    let field = F::default();
    UseSorter { field, direction: Direction::from_field(&field) }
}

/// Builder for [`UseSorter`].  Use this to specify the initial field and
/// direction of the sorter, for example when restoring sort state from URL
/// parameters.
///
/// The invalid combinations a caller may hand it — an unsortable field, or a
/// direction a `Fixed` field does not permit — are corrected rather than
/// rejected, exactly as by [`UseSorter::set_field`].
#[derive(Copy, Clone, Debug, PartialEq)]
pub struct UseSorterBuilder<F> {
    field: F,
    direction: Direction,
}

impl<F> UseSorterBuilder<F> {
    /// The `(field, direction)` preset the builder holds.
    pub closed spec fn spec_preset(&self) -> (F, Direction) {
        (self.field, self.direction)
    }
}

impl<F: Default + Sortable> Default for UseSorterBuilder<F> {
    /// Starts from the default field and its initial direction.
    fn default() -> (r: Self)
        ensures
            call_ensures(F::default, (), r.spec_preset().0),
            r.spec_preset().1 == initial_direction(r.spec_preset().0),
    {
        let field = F::default();
        let direction = Direction::from_field(&field);
        Self { field, direction }
    }
}

impl<F: Copy + Default + Sortable> UseSorterBuilder<F> {
    /// Optionally sets the initial field to sort by.
    pub fn with_field(&self, field: F) -> (r: Self)
        ensures
            r.spec_preset() == (field, self.spec_preset().1),
    {
        Self { field, direction: self.direction }
    }

    /// Optionally sets the initial direction to sort by.
    pub fn with_direction(&self, direction: Direction) -> (r: Self)
        ensures
            r.spec_preset() == (self.spec_preset().0, direction),
    {
        Self { field: self.field, direction }
    }

    /// Creates the sort state, applying the builder's preset: a sortable
    /// preset field becomes active with its direction corrected to one the
    /// field permits; an unsortable preset field is ignored and the state
    /// starts as [`use_sorter`] leaves it, on the `F::default()` field.
    pub fn use_sorter(self) -> (r: UseSorter<F>)
        ensures
            match self.spec_preset().0.sort_by_spec() {
                Some(sb) => r.spec_state() == (
                    self.spec_preset().0,
                    sb.spec_ensure_direction(self.spec_preset().1),
                ),
                None => ({
                    &&& call_ensures(F::default, (), r.spec_state().0)
                    &&& r.spec_state().1 == initial_direction(r.spec_state().0)
                }),
            },
            r.inv(),
    {
        let mut sorter = use_sorter();
        sorter.set_field(self.field, self.direction);
        sorter
    }
}

} // verus!
