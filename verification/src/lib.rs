//! Sort-state engine for sortable tables.
//!
//! A table view presents a collection of rows and lets the user click a
//! column header to choose which field orders the rows, clicking again to
//! reverse the direction.  This crate holds the part of that feature with
//! real invariants: the descriptor model saying how each field may be
//! sorted, the state machine tracking the active `(field, direction)` pair,
//! and the stable comparator sort that resolves partial comparisons,
//! classifies `NULL` values, and applies the direction only to ordered
//! pairs — mirroring SQL `ORDER BY ... NULLS FIRST|LAST` semantics for
//! types that only support partial ordering, such as floating point with
//! NaN or domain values with an explicit unknown case.
//!
//! The consumer supplies a row type `T` and a finite field enum `F`, one
//! variant per sortable column, implementing [`PartialOrdBy`] to compare
//! two rows by a field and [`Sortable`] to describe how each field may be
//! sorted.  The rendering layer owns a [`UseSorter`] per view, feeds header
//! clicks to [`UseSorter::toggle_field`], restores externally held state
//! with [`UseSorter::set_field`], reads the state for indicator glyphs with
//! [`UseSorter::get_state`], and orders rows with [`UseSorter::sort`] just
//! before rendering.  After any mutating call the host re-renders.
//!
//! Every operation carries a contract pinning its result down exactly, and
//! the laws of the design are proved once and for all: toggle cycling,
//! absoluteness of `set_field`, preservation of the state invariant, and —
//! for a [lawful](lawful_on) comparator — that the sort is a permutation,
//! sorted, stable, and places `NULL` rows as a contiguous block independent
//! of the direction.

mod descriptor;
mod engine;
mod laws;
mod sorting;

pub use descriptor::{Direction, NullHandling, SortBy};
pub use engine::{
    initial_direction, spec_set_field, spec_toggle_field, state_inv, use_sorter, PartialOrdBy,
    Sortable, UseSorter, UseSorterBuilder,
};
pub use laws::{
    flip_option, lawful_on, le_some, lemma_direction_symmetry, lemma_lawful_implies_wf,
    lemma_null_placement, lemma_set_field_absolute, lemma_sort_by_permutes, lemma_sort_by_sorted,
    lemma_sort_stable, lemma_toggle_fixed_constant, lemma_toggle_reversible_cycle,
    lemma_transitions_preserve_inv, null_count, null_pred, rank_pred, same_rank, sorted_ord,
};
pub use sorting::{
    apply_direction, cmp_fn, full_cmp, merge_seqs, null_ordering, reverse_ordering, sort_by,
    sort_by_view, sort_seq, spec_is_null, wf_all, wf_pair,
};
