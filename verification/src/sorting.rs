//! The comparator sort: resolution of a partial comparison into a total
//! 3-way comparison (`NULL` classification first, direction strictly after),
//! a specification-level stable merge sort pinning down the result sequence
//! exactly, and the verified in-place sort, at O(n log n) comparisons.

use core::cmp::Ordering;
use vstd::multiset::Multiset;
use vstd::prelude::*;

use crate::descriptor::{Direction, NullHandling};
use crate::engine::{PartialOrdBy, Sortable, UseSorter};

verus! {

/// Whether row `x`'s value under field `f` is a `NULL` value: by the
/// [`PartialOrdBy`] contract, exactly the rows whose self-comparison is
/// undefined.
pub open spec fn spec_is_null<T, F: PartialOrdBy<T>>(f: F, x: T) -> bool {
    f.partial_cmp_by_spec(x, x) is None
}

/// The self-comparison contract of [`PartialOrdBy`] on one pair: if the pair
/// is unordered, at least one side is a `NULL` value.  A comparator that
/// breaks this has no statically safe fallback, so the sort requires it.
pub open spec fn wf_pair<T, F: PartialOrdBy<T>>(f: F, a: T, b: T) -> bool {
    f.partial_cmp_by_spec(a, b) is None ==> spec_is_null(f, a) || spec_is_null(f, b)
}

/// [`wf_pair`] over every pair of rows drawn from `s`.
pub open spec fn wf_all<T, F: PartialOrdBy<T>>(f: F, s: Seq<T>) -> bool {
    forall|a: T, b: T| s.contains(a) && s.contains(b) ==> #[trigger] wf_pair(f, a, b)
}

/// The opposite comparison result.
pub open spec fn reverse_ordering(o: Ordering) -> Ordering {
    match o {
        Ordering::Less => Ordering::Greater,
        Ordering::Equal => Ordering::Equal,
        Ordering::Greater => Ordering::Less,
    }
}

/// Applies the sort direction to an ordered comparison: descending reverses
/// it, ascending leaves it.
pub open spec fn apply_direction(dir: Direction, o: Ordering) -> Ordering {
    match dir {
        Direction::Ascending => o,
        Direction::Descending => reverse_ordering(o),
    }
}

/// The comparison used for an unordered pair, from the `NULL` classification
/// of its two sides.  Two `NULL` values are equal (stability then preserves
/// their original order); a single `NULL` value goes where the placement
/// says, regardless of direction.  A pair with neither side `NULL` is a
/// comparator contract violation ([`wf_pair`]) and never reached by the
/// sort.
pub open spec fn null_ordering(nulls: NullHandling, a_null: bool, b_null: bool) -> Ordering {
    if a_null && b_null {
        Ordering::Equal
    } else if a_null {
        match nulls {
            NullHandling::First => Ordering::Less,
            NullHandling::Last => Ordering::Greater,
        }
    } else if b_null {
        match nulls {
            NullHandling::First => Ordering::Greater,
            NullHandling::Last => Ordering::Less,
        }
    } else {
        Ordering::Equal
    }
}

/// The total 3-way comparison the sort orders rows by: the field's partial
/// comparison with the direction applied where it is defined, and the `NULL`
/// placement where it is not.  The direction is applied strictly after
/// `NULL` resolution — reversing before `NULL` classification would corrupt
/// `NULL` placement.
pub open spec fn full_cmp<T, F: PartialOrdBy<T>>(
    f: F,
    dir: Direction,
    nulls: NullHandling,
    a: T,
    b: T,
) -> Ordering {
    match f.partial_cmp_by_spec(a, b) {
        Some(o) => apply_direction(dir, o),
        None => null_ordering(nulls, spec_is_null(f, a), spec_is_null(f, b)),
    }
}

/// [`full_cmp`] as a comparison function on rows.
pub open spec fn cmp_fn<T, F: PartialOrdBy<T>>(
    f: F,
    dir: Direction,
    nulls: NullHandling,
) -> spec_fn(T, T) -> Ordering {
    |a: T, b: T| full_cmp(f, dir, nulls, a, b)
}

/// The stable merge of two sequences: repeatedly take the smaller head, and
/// the left head on a tie, so that rows of equal rank from the left input
/// precede those from the right.
pub open spec fn merge_seqs<T>(c: spec_fn(T, T) -> Ordering, a: Seq<T>, b: Seq<T>) -> Seq<T>
    decreases a.len() + b.len(),
{
    if a.len() == 0 {
        b
    } else if b.len() == 0 {
        a
    } else if c(a.first(), b.first()) == Ordering::Greater {
        seq![b.first()] + merge_seqs(c, a, b.drop_first())
    } else {
        seq![a.first()] + merge_seqs(c, a.drop_first(), b)
    }
}

/// The stable sort of `s` under comparison `c`: sort each half, then merge,
/// ties resolved towards the earlier half.  This is the exact sequence the
/// executable sort produces.
pub open spec fn sort_seq<T>(c: spec_fn(T, T) -> Ordering, s: Seq<T>) -> Seq<T>
    decreases s.len(),
{
    if s.len() <= 1 {
        s
    } else {
        let mid = s.len() as int / 2;
        merge_seqs(c, sort_seq(c, s.take(mid)), sort_seq(c, s.skip(mid)))
    }
}

/// What [`sort_by`] turns a row sequence into: the stable sort under the
/// field's comparison, with `NULL` resolution and the direction applied to
/// ordered pairs only.
pub open spec fn sort_by_view<T, F: PartialOrdBy<T>>(
    f: F,
    dir: Direction,
    nulls: NullHandling,
    s: Seq<T>,
) -> Seq<T> {
    sort_seq(cmp_fn(f, dir, nulls), s)
}

/// Merging combines the contents of the two inputs, nothing more.
pub(crate) proof fn lemma_merge_multiset<T>(c: spec_fn(T, T) -> Ordering, a: Seq<T>, b: Seq<T>)
    ensures
        merge_seqs(c, a, b).to_multiset() == a.to_multiset().add(b.to_multiset()),
    decreases a.len() + b.len(),
{
    broadcast use vstd::seq_lib::group_to_multiset_ensures;
    broadcast use vstd::multiset::group_multiset_axioms;
    broadcast use vstd::seq_lib::lemma_multiset_commutative;

    if a.len() == 0 {
        assert(a.to_multiset() =~= Multiset::<T>::empty());
        assert(merge_seqs(c, a, b).to_multiset() =~= a.to_multiset().add(b.to_multiset()));
    } else if b.len() == 0 {
        assert(b.to_multiset() =~= Multiset::<T>::empty());
        assert(merge_seqs(c, a, b).to_multiset() =~= a.to_multiset().add(b.to_multiset()));
    } else if c(a.first(), b.first()) == Ordering::Greater {
        lemma_merge_multiset(c, a, b.drop_first());
        assert(b =~= seq![b.first()] + b.drop_first());
        assert((seq![b.first()] + b.drop_first()).to_multiset() =~= seq![
            b.first(),
        ].to_multiset().add(b.drop_first().to_multiset()));
        assert((seq![b.first()] + merge_seqs(c, a, b.drop_first())).to_multiset() =~= seq![
            b.first(),
        ].to_multiset().add(merge_seqs(c, a, b.drop_first()).to_multiset()));
        assert(merge_seqs(c, a, b).to_multiset() =~= a.to_multiset().add(b.to_multiset()));
    } else {
        lemma_merge_multiset(c, a.drop_first(), b);
        assert(a =~= seq![a.first()] + a.drop_first());
        assert((seq![a.first()] + a.drop_first()).to_multiset() =~= seq![
            a.first(),
        ].to_multiset().add(a.drop_first().to_multiset()));
        assert((seq![a.first()] + merge_seqs(c, a.drop_first(), b)).to_multiset() =~= seq![
            a.first(),
        ].to_multiset().add(merge_seqs(c, a.drop_first(), b).to_multiset()));
        assert(merge_seqs(c, a, b).to_multiset() =~= a.to_multiset().add(b.to_multiset()));
    }
}

/// The merged rows are exactly those of the two inputs.
pub(crate) proof fn lemma_merge_contains<T>(c: spec_fn(T, T) -> Ordering, a: Seq<T>, b: Seq<T>)
    ensures
        forall|y: T| #[trigger] merge_seqs(c, a, b).contains(y) <==> (a.contains(y)
            || b.contains(y)),
{
    broadcast use vstd::multiset::group_multiset_axioms;

    lemma_merge_multiset(c, a, b);
    a.to_multiset_ensures();
    b.to_multiset_ensures();
    merge_seqs(c, a, b).to_multiset_ensures();
    assert forall|y: T| #[trigger] merge_seqs(c, a, b).contains(y) <==> (a.contains(y)
        || b.contains(y)) by {
        assert(merge_seqs(c, a, b).to_multiset().count(y) == a.to_multiset().count(y)
            + b.to_multiset().count(y));
    }
}

/// The sort permutes its input: the contents are unchanged as a multiset.
pub proof fn lemma_sort_seq_multiset<T>(c: spec_fn(T, T) -> Ordering, s: Seq<T>)
    ensures
        sort_seq(c, s).to_multiset() == s.to_multiset(),
    decreases s.len(),
{
    broadcast use vstd::multiset::group_multiset_axioms;
    broadcast use vstd::seq_lib::lemma_multiset_commutative;

    if s.len() > 1 {
        let mid = s.len() as int / 2;
        lemma_sort_seq_multiset(c, s.take(mid));
        lemma_sort_seq_multiset(c, s.skip(mid));
        lemma_merge_multiset(c, sort_seq(c, s.take(mid)), sort_seq(c, s.skip(mid)));
        assert(s =~= s.take(mid) + s.skip(mid));
        assert((s.take(mid) + s.skip(mid)).to_multiset() =~= s.take(mid).to_multiset().add(
            s.skip(mid).to_multiset(),
        ));
        assert(sort_seq(c, s).to_multiset() =~= s.to_multiset());
    }
}

/// The sort keeps the length and exactly the original elements.
pub proof fn lemma_sort_seq_elements<T>(c: spec_fn(T, T) -> Ordering, s: Seq<T>)
    ensures
        sort_seq(c, s).len() == s.len(),
        forall|x: T| #[trigger] sort_seq(c, s).contains(x) <==> s.contains(x),
{
    lemma_sort_seq_multiset(c, s);
    s.to_multiset_ensures();
    sort_seq(c, s).to_multiset_ensures();
    assert forall|x: T| #[trigger] sort_seq(c, s).contains(x) <==> s.contains(x) by {
        assert(sort_seq(c, s).to_multiset().count(x) == s.to_multiset().count(x));
    }
}

fn reverse_ord(o: Ordering) -> (r: Ordering)
    ensures
        r == reverse_ordering(o),
{
    match o {
        Ordering::Less => Ordering::Greater,
        Ordering::Equal => Ordering::Equal,
        Ordering::Greater => Ordering::Less,
    }
}

fn is_greater(o: Ordering) -> (r: bool)
    ensures
        r == (o == Ordering::Greater),
{
    matches!(o, Ordering::Greater)
}

/// The executable form of [`full_cmp`]: resolves an unordered pair by
/// classifying each side independently through its self-comparison.
fn cmp_rows<T, F: PartialOrdBy<T>>(
    f: &F,
    dir: Direction,
    nulls: NullHandling,
    a: &T,
    b: &T,
) -> (r: Ordering)
    requires
        wf_pair(*f, *a, *b),
    ensures
        r == full_cmp(*f, dir, nulls, *a, *b),
{
    let partial = f.partial_cmp_by(a, b);
    match partial {
        Some(o) => match dir {
            Direction::Ascending => o,
            Direction::Descending => reverse_ord(o),
        },
        None => {
            let a_is_null = f.partial_cmp_by(a, a).is_none();
            let b_is_null = f.partial_cmp_by(b, b).is_none();
            match (a_is_null, b_is_null) {
                (true, true) => Ordering::Equal,
                (true, false) => match nulls {
                    NullHandling::First => Ordering::Less,
                    NullHandling::Last => Ordering::Greater,
                },
                (false, true) => match nulls {
                    NullHandling::First => Ordering::Greater,
                    NullHandling::Last => Ordering::Less,
                },
                (false, false) => {
                    // The first comparison should not have been None then;
                    // `wf_pair` rules this out.
                    proof {
                        assert(false);
                    }
                    Ordering::Equal
                },
            }
        },
    }
}

/// Reverses a vector in place (by rebuilding it back to front).
fn reverse_vec<T>(v: &mut Vec<T>)
    ensures
        final(v)@ == old(v)@.reverse(),
{
    let ghost orig = v@;
    let mut out: Vec<T> = Vec::new();
    proof {
        assert(out@ =~= orig.skip(orig.len() as int).reverse());
    }
    while v.len() > 0
        invariant
            v@.len() <= orig.len(),
            v@ == orig.take(v@.len() as int),
            out@ == orig.skip(v@.len() as int).reverse(),
        decreases v@.len(),
    {
        let ghost k = v@.len() as int;
        let x = v.pop().unwrap();
        out.push(x);
        proof {
            assert(x == orig[k - 1]);
            assert(v@ =~= orig.take(k - 1));
            assert(out@ =~= orig.skip(k - 1).reverse());
        }
    }
    proof {
        assert(orig.skip(0) =~= orig);
    }
    *v = out;
}

/// Merges two vectors into one, taking the smaller front row each step and
/// the left one on a tie.  Consumes from the backs of reversed copies so
/// that each step moves O(1) rows.
fn merge_vecs<T, F: PartialOrdBy<T>>(
    f: &F,
    dir: Direction,
    nulls: NullHandling,
    a: Vec<T>,
    b: Vec<T>,
) -> (r: Vec<T>)
    requires
        wf_all(*f, a@ + b@),
    ensures
        r@ == merge_seqs(cmp_fn(*f, dir, nulls), a@, b@),
{
    let ghost ga = a@;
    let ghost gb = b@;
    let ghost c = cmp_fn::<T, F>(*f, dir, nulls);
    let mut ra = a;
    let mut rb = b;
    reverse_vec(&mut ra);
    reverse_vec(&mut rb);
    let mut out: Vec<T> = Vec::new();
    proof {
        assert(ra@.reverse() =~= ga);
        assert(rb@.reverse() =~= gb);
        assert forall|i: int| 0 <= i < ra@.len() implies (ga + gb).contains(
            #[trigger] ra@[i],
        ) by {
            assert((ga + gb)[ga.len() - 1 - i] == ra@[i]);
        }
        assert forall|i: int| 0 <= i < rb@.len() implies (ga + gb).contains(
            #[trigger] rb@[i],
        ) by {
            assert((ga + gb)[ga.len() + (gb.len() - 1 - i)] == rb@[i]);
        }
    }
    while ra.len() > 0 && rb.len() > 0
        invariant
            c == cmp_fn::<T, F>(*f, dir, nulls),
            wf_all(*f, ga + gb),
            forall|i: int| 0 <= i < ra@.len() ==> (ga + gb).contains(#[trigger] ra@[i]),
            forall|i: int| 0 <= i < rb@.len() ==> (ga + gb).contains(#[trigger] rb@[i]),
            out@ + merge_seqs(c, ra@.reverse(), rb@.reverse()) == merge_seqs(c, ga, gb),
        decreases ra@.len() + rb@.len(),
    {
        let ghost pa = ra@.reverse();
        let ghost pb = rb@.reverse();
        proof {
            assert(pa.first() == ra@[ra@.len() - 1]);
            assert(pb.first() == rb@[rb@.len() - 1]);
        }
        let o = cmp_rows(f, dir, nulls, &ra[ra.len() - 1], &rb[rb.len() - 1]);
        if is_greater(o) {
            let x = rb.pop().unwrap();
            out.push(x);
            proof {
                assert(c(pa.first(), pb.first()) == Ordering::Greater);
                assert(pb.first() == x);
                assert(rb@.reverse() =~= pb.drop_first());
                assert(merge_seqs(c, pa, pb) == seq![pb.first()] + merge_seqs(
                    c,
                    pa,
                    pb.drop_first(),
                ));
                assert(out@ + merge_seqs(c, ra@.reverse(), rb@.reverse()) =~= merge_seqs(
                    c,
                    ga,
                    gb,
                ));
            }
        } else {
            let x = ra.pop().unwrap();
            out.push(x);
            proof {
                assert(c(pa.first(), pb.first()) != Ordering::Greater);
                assert(pa.first() == x);
                assert(ra@.reverse() =~= pa.drop_first());
                assert(merge_seqs(c, pa, pb) == seq![pa.first()] + merge_seqs(
                    c,
                    pa.drop_first(),
                    pb,
                ));
                assert(out@ + merge_seqs(c, ra@.reverse(), rb@.reverse()) =~= merge_seqs(
                    c,
                    ga,
                    gb,
                ));
            }
        }
    }
    while ra.len() > 0
        invariant
            ra@.len() > 0 ==> rb@.len() == 0,
            out@ + merge_seqs(c, ra@.reverse(), rb@.reverse()) == merge_seqs(c, ga, gb),
        decreases ra@.len(),
    {
        let ghost pa = ra@.reverse();
        proof {
            assert(rb@.len() == 0);
        }
        let x = ra.pop().unwrap();
        out.push(x);
        proof {
            assert(pa.first() == x);
            assert(ra@.reverse() =~= pa.drop_first());
            assert(merge_seqs(c, pa, rb@.reverse()) == pa);
            assert(merge_seqs(c, pa.drop_first(), rb@.reverse()) == pa.drop_first());
            assert(pa =~= seq![pa.first()] + pa.drop_first());
            assert(out@ + merge_seqs(c, ra@.reverse(), rb@.reverse()) =~= merge_seqs(c, ga, gb));
        }
    }
    while rb.len() > 0
        invariant
            ra@.len() == 0,
            out@ + merge_seqs(c, ra@.reverse(), rb@.reverse()) == merge_seqs(c, ga, gb),
        decreases rb@.len(),
    {
        let ghost pb = rb@.reverse();
        let x = rb.pop().unwrap();
        out.push(x);
        proof {
            assert(pb.first() == x);
            assert(rb@.reverse() =~= pb.drop_first());
            assert(ra@.reverse() =~= Seq::<T>::empty());
            assert(merge_seqs(c, ra@.reverse(), pb) == pb);
            assert(merge_seqs(c, ra@.reverse(), pb.drop_first()) == pb.drop_first());
            assert(pb =~= seq![pb.first()] + pb.drop_first());
            assert(out@ + merge_seqs(c, ra@.reverse(), rb@.reverse()) =~= merge_seqs(c, ga, gb));
        }
    }
    proof {
        assert(ra@.reverse() =~= Seq::<T>::empty());
        assert(rb@.reverse() =~= Seq::<T>::empty());
        assert(out@ =~= merge_seqs(c, ga, gb));
    }
    out
}

/// Sorts a vector it owns: split in half, sort each half, merge.
fn merge_sort_rec<T, F: PartialOrdBy<T>>(
    f: &F,
    dir: Direction,
    nulls: NullHandling,
    items: Vec<T>,
) -> (r: Vec<T>)
    requires
        wf_all(*f, items@),
    ensures
        r@ == sort_seq(cmp_fn(*f, dir, nulls), items@),
    decreases items@.len(),
{
    let ghost orig = items@;
    let ghost c = cmp_fn::<T, F>(*f, dir, nulls);
    if items.len() <= 1 {
        return items;
    }
    let mid = items.len() / 2;
    let mut left = items;
    let mut right_rev: Vec<T> = Vec::new();
    proof {
        assert(left@ =~= orig.take(left@.len() as int));
        assert(right_rev@ =~= orig.skip(left@.len() as int).reverse());
    }
    while left.len() > mid
        invariant
            mid <= left@.len(),
            left@.len() <= orig.len(),
            left@ == orig.take(left@.len() as int),
            right_rev@ == orig.skip(left@.len() as int).reverse(),
        decreases left@.len(),
    {
        let ghost k = left@.len() as int;
        let x = left.pop().unwrap();
        right_rev.push(x);
        proof {
            assert(x == orig[k - 1]);
            assert(left@ =~= orig.take(k - 1));
            assert(right_rev@ =~= orig.skip(k - 1).reverse());
        }
    }
    let mut right = right_rev;
    reverse_vec(&mut right);
    proof {
        assert(right@ =~= orig.skip(mid as int));
        assert forall|x: T, y: T| left@.contains(x) && left@.contains(y) implies #[trigger]
            wf_pair(*f, x, y) by {
            let i = choose|i: int| 0 <= i < left@.len() && left@[i] == x;
            let j = choose|j: int| 0 <= j < left@.len() && left@[j] == y;
            assert(orig[i] == x && orig[j] == y);
            assert(orig.contains(x) && orig.contains(y));
        }
        assert forall|x: T, y: T| right@.contains(x) && right@.contains(y) implies #[trigger]
            wf_pair(*f, x, y) by {
            let i = choose|i: int| 0 <= i < right@.len() && right@[i] == x;
            let j = choose|j: int| 0 <= j < right@.len() && right@[j] == y;
            assert(orig[mid + i] == x && orig[mid + j] == y);
            assert(orig.contains(x) && orig.contains(y));
        }
    }
    let ls = merge_sort_rec(f, dir, nulls, left);
    let rs = merge_sort_rec(f, dir, nulls, right);
    proof {
        lemma_sort_seq_elements(c, orig.take(mid as int));
        lemma_sort_seq_elements(c, orig.skip(mid as int));
        assert forall|x: T, y: T| (ls@ + rs@).contains(x) && (ls@ + rs@).contains(
            y,
        ) implies #[trigger] wf_pair(*f, x, y) by {
            assert forall|z: T| (ls@ + rs@).contains(z) implies orig.contains(z) by {
                let i = choose|i: int| 0 <= i < (ls@ + rs@).len() && (ls@ + rs@)[i] == z;
                if i < ls@.len() {
                    assert(ls@.contains(z));
                    assert(orig.take(mid as int).contains(z));
                    let w = choose|w: int|
                        0 <= w < orig.take(mid as int).len() && orig.take(mid as int)[w] == z;
                    assert(orig[w] == z);
                } else {
                    assert(rs@[i - ls@.len()] == z);
                    assert(rs@.contains(z));
                    assert(orig.skip(mid as int).contains(z));
                    let w = choose|w: int|
                        0 <= w < orig.skip(mid as int).len() && orig.skip(mid as int)[w] == z;
                    assert(orig[mid + w] == z);
                }
            }
        }
    }
    let merged = merge_vecs(f, dir, nulls, ls, rs);
    proof {
        assert(merged@ == sort_seq(c, orig));
    }
    merged
}

/// Sorts `items` in place: a stable merge sort by `sort_by`'s comparison —
/// O(n log n) comparisons — with the undefined (`NULL`) comparisons placed
/// by `nulls` and the direction applied to ordered pairs only.
///
/// Requires the comparator to meet its self-comparison contract on the rows
/// given ([`wf_all`]): on a pair it cannot order where neither side is
/// `NULL`, the original design treats the comparator as broken and fails
/// fatally, so such inputs are excluded here.
pub fn sort_by<T, F: PartialOrdBy<T>>(
    sort_by: &F,
    dir: Direction,
    nulls: NullHandling,
    items: &mut Vec<T>,
)
    requires
        wf_all(*sort_by, old(items)@),
    ensures
        final(items)@ == sort_by_view(*sort_by, dir, nulls, old(items)@),
{
    let mut owned: Vec<T> = Vec::new();
    core::mem::swap(items, &mut owned);
    let sorted = merge_sort_rec(sort_by, dir, nulls, owned);
    *items = sorted;
}

impl<F> UseSorter<F> {
    /// Sorts items according to the current field and direction, with that
    /// field's `NULL` placement.
    ///
    /// For example: if data is coming from a future then this fn can be
    /// called once it has completed, and any filter should be applied
    /// before sorting.
    pub fn sort<T>(&self, items: &mut Vec<T>) where F: PartialOrdBy<T> + Sortable
        requires
            wf_all(self.spec_state().0, old(items)@),
        ensures
            final(items)@ == sort_by_view(
                self.spec_state().0,
                self.spec_state().1,
                self.spec_state().0.null_handling_spec(),
                old(items)@,
            ),
    {
        let (field, dir) = self.get_state();
        sort_by(field, *dir, field.null_handling(), items);
    }
}

} // verus!
