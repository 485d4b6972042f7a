//! Value types describing, per sortable field, whether it may be sorted, in
//! which direction(s), what the initial direction is, and where `NULL` values
//! are placed.

use vstd::prelude::*;

verus! {

/// Sort direction.  There is no default: the direction is always implied by a
/// field's [`SortBy`] descriptor.
#[derive(Copy, Clone, Debug, PartialEq, Eq, Structural)]
pub enum Direction {
    /// Ascending sort. A-Z, 0-9, little to big.
    Ascending,
    /// Descending sort. Z-A, opposite of ascending.
    Descending,
}

impl Direction {
    /// The opposite direction.
    pub open spec fn spec_invert(&self) -> Direction {
        match self {
            Direction::Ascending => Direction::Descending,
            Direction::Descending => Direction::Ascending,
        }
    }

    /// Inverts the direction.
    #[verifier::when_used_as_spec(spec_invert)]
    pub fn invert(&self) -> (r: Direction)
        ensures
            r == self.spec_invert(),
    {
        match self {
            Direction::Ascending => Direction::Descending,
            Direction::Descending => Direction::Ascending,
        }
    }
}

/// Placement of `NULL` values, that is of rows whose value under the active
/// field cannot be ordered (a comparison that returns `None`).  Follows the
/// SQL `ORDER BY ... NULLS FIRST|LAST` convention: the placement is chosen
/// independently of the [`Direction`].
#[derive(Copy, Clone, Debug, PartialEq, Eq, Structural)]
pub enum NullHandling {
    /// Places all `NULL` values first.
    First,
    /// Places all `NULL` values last.  The default.
    Last,
}

impl Default for NullHandling {
    /// `NULL` values go last unless a field says otherwise.
    fn default() -> (r: Self)
        ensures
            r == NullHandling::Last,
    {
        NullHandling::Last
    }
}

/// Describes how a field may be sorted.  Returned by
/// [`Sortable::sort_by`](crate::Sortable::sort_by); a field that may not be
/// sorted at all returns no descriptor (`None`).
#[derive(Copy, Clone, Debug, PartialEq, Eq, Structural)]
pub enum SortBy {
    /// The field is limited to being sorted in the one direction given.
    Fixed(Direction),
    /// The field may be sorted in either direction; the direction given is
    /// the one used the first time the field becomes active.
    Reversible(Direction),
}

impl Default for SortBy {
    /// Reversible, starting ascending.
    fn default() -> (r: SortBy)
        ensures
            r == SortBy::Reversible(Direction::Ascending),
    {
        SortBy::increasing_or_decreasing().unwrap()
    }
}

impl SortBy {
    /// The field may not be sorted.  Convenience for specifying how a field
    /// may be sorted.
    pub fn unsortable() -> (r: Option<Self>)
        ensures
            r is None,
    {
        None
    }

    /// The field may only be sorted in ascending order.
    pub fn increasing() -> (r: Option<Self>)
        ensures
            r == Some(SortBy::Fixed(Direction::Ascending)),
    {
        Some(Self::Fixed(Direction::Ascending))
    }

    /// The field may only be sorted in descending order.
    pub fn decreasing() -> (r: Option<Self>)
        ensures
            r == Some(SortBy::Fixed(Direction::Descending)),
    {
        Some(Self::Fixed(Direction::Descending))
    }

    /// The field may be sorted in either direction, initially ascending.
    pub fn increasing_or_decreasing() -> (r: Option<Self>)
        ensures
            r == Some(SortBy::Reversible(Direction::Ascending)),
    {
        Some(Self::Reversible(Direction::Ascending))
    }

    /// The field may be sorted in either direction, initially descending.
    pub fn decreasing_or_increasing() -> (r: Option<Self>)
        ensures
            r == Some(SortBy::Reversible(Direction::Descending)),
    {
        Some(Self::Reversible(Direction::Descending))
    }

    /// The initial (for `Reversible`) or only (for `Fixed`) direction of the
    /// sort.
    pub open spec fn spec_direction(&self) -> Direction {
        match self {
            SortBy::Fixed(dir) => *dir,
            SortBy::Reversible(dir) => *dir,
        }
    }

    /// Returns the initial / implied direction of the sort.
    #[verifier::when_used_as_spec(spec_direction)]
    pub fn direction(&self) -> (r: Direction)
        ensures
            r == self.spec_direction(),
    {
        match self {
            SortBy::Fixed(dir) => *dir,
            SortBy::Reversible(dir) => *dir,
        }
    }

    /// The direction a request for `dir` is corrected to: a `Fixed` field
    /// clamps every request to its one legal direction, a `Reversible` field
    /// grants the request unchanged.
    pub open spec fn spec_ensure_direction(&self, dir: Direction) -> Direction {
        match self {
            SortBy::Fixed(allowed) => *allowed,
            SortBy::Reversible(_) => dir,
        }
    }

    /// Corrects a requested direction to one the descriptor permits, rather
    /// than rejecting the request.
    pub(crate) fn ensure_direction(&self, dir: Direction) -> (r: Direction)
        ensures
            r == self.spec_ensure_direction(dir),
    {
        match self {
            // Must match allowed
            SortBy::Fixed(allowed) => {
                if *allowed == dir {
                    dir
                } else {
                    // Did not match allowed
                    *allowed
                }
            },
            // Any allowed
            SortBy::Reversible(_) => dir,
        }
    }

    /// Whether `dir` is a direction this descriptor permits.
    pub open spec fn permits(&self, dir: Direction) -> bool {
        match self {
            SortBy::Fixed(allowed) => dir == allowed,
            SortBy::Reversible(_) => true,
        }
    }
}

} // verus!
