//! The laws of the engine, each proved once and for all: the state-machine
//! laws of toggling and setting, and the ordering laws of the comparator
//! sort.

use core::cmp::Ordering;
use vstd::prelude::*;

use crate::descriptor::{Direction, NullHandling, SortBy};
use crate::engine::{spec_set_field, spec_toggle_field, state_inv, PartialOrdBy, Sortable};
use crate::sorting::{
    cmp_fn, lemma_merge_contains, lemma_sort_seq_elements, lemma_sort_seq_multiset, merge_seqs,
    reverse_ordering, sort_by_view, sort_seq, spec_is_null, wf_all, wf_pair,
};

verus! {

/// Toggling a reversible field twice, with no other state change, returns
/// the state to where it began — provided the field was already the active
/// one.  (Toggling an inactive reversible field twice instead leaves it
/// active in the inverse of its configured initial direction.)
pub proof fn lemma_toggle_reversible_cycle<F: Sortable>(field: F, dir: Direction, target: F)
    requires
        target.sort_by_spec() matches Some(SortBy::Reversible(_)),
        target == field,
    ensures
        ({
            let mid = spec_toggle_field(field, dir, target);
            spec_toggle_field(mid.0, mid.1, target) == (field, dir)
        }),
{
}

/// Toggling a fixed field always lands on that field's one legal direction:
/// a first toggle from anywhere, and every further toggle, yield the same
/// state — no inversion ever occurs for fixed fields.
pub proof fn lemma_toggle_fixed_constant<F: Sortable>(
    field: F,
    dir: Direction,
    target: F,
    d: Direction,
)
    requires
        target.sort_by_spec() == Some(SortBy::Fixed(d)),
    ensures
        spec_toggle_field(field, dir, target) == (target, d),
        ({
            let mid = spec_toggle_field(field, dir, target);
            spec_toggle_field(mid.0, mid.1, target) == mid
        }),
{
}

/// Setting is absolute: a second identical set produces the same state as
/// the first — there is no inversion on repetition, unlike toggling.
pub proof fn lemma_set_field_absolute<F: Sortable>(
    field: F,
    dir: Direction,
    target: F,
    requested: Direction,
)
    ensures
        ({
            let once = spec_set_field(field, dir, target, requested);
            spec_set_field(once.0, once.1, target, requested) == once
        }),
{
}

/// Both transitions preserve the state invariant: the direction never
/// leaves what the active field's descriptor permits.
pub proof fn lemma_transitions_preserve_inv<F: Sortable>(
    field: F,
    dir: Direction,
    target: F,
    requested: Direction,
)
    requires
        state_inv(field, dir),
    ensures
        ({
            let t = spec_toggle_field(field, dir, target);
            state_inv(t.0, t.1)
        }),
        ({
            let s = spec_set_field(field, dir, target, requested);
            state_inv(s.0, s.1)
        }),
{
}

/// Whether comparing `a` to `b` by field `f` yields less-or-equal.
pub open spec fn le_some<T, F: PartialOrdBy<T>>(f: F, a: T, b: T) -> bool {
    f.partial_cmp_by_spec(a, b) matches Some(Ordering::Less | Ordering::Equal)
}

/// The comparison result seen from the other side.
pub open spec fn flip_option(o: Option<Ordering>) -> Option<Ordering> {
    match o {
        Some(x) => Some(reverse_ordering(x)),
        None => None,
    }
}

/// What it means for the field comparator to implement a partial order with
/// `NULL` semantics on the rows of `s`:
/// - a pair is unordered exactly when one of its sides is a `NULL` value
///   (this strengthens [`wf_pair`] to an equivalence);
/// - comparing the other way round reverses the result;
/// - less-or-equal is transitive.
///
/// A comparator built by delegating to `PartialOrd::partial_cmp` of a type
/// whose non-`NULL` values are totally ordered — an integer, a string, a
/// float with NaN as the `NULL` case — satisfies all of this.
pub open spec fn lawful_on<T, F: PartialOrdBy<T>>(f: F, s: Seq<T>) -> bool {
    &&& forall|a: T, b: T| #![trigger f.partial_cmp_by_spec(a, b)]
        s.contains(a) && s.contains(b) ==> (f.partial_cmp_by_spec(a, b) is None <==> (
        spec_is_null(f, a) || spec_is_null(f, b)))
    &&& forall|a: T, b: T| #![trigger f.partial_cmp_by_spec(b, a)]
        s.contains(a) && s.contains(b) ==> f.partial_cmp_by_spec(b, a) == flip_option(
            f.partial_cmp_by_spec(a, b),
        )
    &&& forall|a: T, b: T, x: T| #![trigger le_some(f, a, b), le_some(f, b, x)]
        s.contains(a) && s.contains(b) && s.contains(x) && le_some(f, a, b) && le_some(f, b, x)
            ==> le_some(f, a, x)
}

/// A lawful comparator meets the self-comparison contract the sort
/// requires: [`lawful_on`] implies [`wf_all`].
pub proof fn lemma_lawful_implies_wf<T, F: PartialOrdBy<T>>(f: F, s: Seq<T>)
    requires
        lawful_on(f, s),
    ensures
        wf_all(f, s),
{
    assert forall|a: T, b: T| s.contains(a) && s.contains(b) implies #[trigger] wf_pair(
        f,
        a,
        b,
    ) by {
        assert(f.partial_cmp_by_spec(a, b) is None ==> (spec_is_null(f, a) || spec_is_null(
            f,
            b,
        )));
    }
}

/// The rows are ordered: no later row compares strictly greater than an
/// earlier one under `c`.
pub open spec fn sorted_ord<T>(s: Seq<T>, c: spec_fn(T, T) -> Ordering) -> bool {
    forall|i: int, j: int| 0 <= i < j < s.len() ==> #[trigger] c(s[i], s[j]) != Ordering::Greater
}

/// `c(b, a)` reverses `c(a, b)` for rows drawn from `dom`.
spec fn flip_on<T>(c: spec_fn(T, T) -> Ordering, dom: Seq<T>) -> bool {
    forall|a: T, b: T| #![trigger c(b, a)]
        dom.contains(a) && dom.contains(b) ==> c(b, a) == reverse_ordering(c(a, b))
}

/// "not greater" under `c` is transitive for rows drawn from `dom`.
spec fn le_trans_on<T>(c: spec_fn(T, T) -> Ordering, dom: Seq<T>) -> bool {
    forall|a: T, b: T, x: T| #![trigger c(a, b), c(b, x)]
        dom.contains(a) && dom.contains(b) && dom.contains(x) && c(a, b) != Ordering::Greater && c(
            b,
            x,
        ) != Ordering::Greater ==> c(a, x) != Ordering::Greater
}

/// A lawful partial comparator makes the resolved total comparison of the
/// sort a total preorder on the rows of `s`, whatever the direction and
/// `NULL` placement.
proof fn lemma_full_cmp_props<T, F: PartialOrdBy<T>>(
    f: F,
    dir: Direction,
    nulls: NullHandling,
    s: Seq<T>,
)
    requires
        lawful_on(f, s),
    ensures
        flip_on(cmp_fn(f, dir, nulls), s),
        le_trans_on(cmp_fn(f, dir, nulls), s),
{
    let c = cmp_fn(f, dir, nulls);
    assert forall|a: T, b: T| dom_pair(s, a, b) implies #[trigger] c(b, a) == reverse_ordering(
        c(a, b),
    ) by {
        assert(f.partial_cmp_by_spec(b, a) == flip_option(f.partial_cmp_by_spec(a, b)));
    }
    assert forall|a: T, b: T, x: T|
        #![trigger c(a, b), c(b, x)]
        dom_pair(s, a, b) && s.contains(x) && c(a, b) != Ordering::Greater && c(b, x)
            != Ordering::Greater implies c(a, x) != Ordering::Greater by {
        assert(f.partial_cmp_by_spec(a, b) == flip_option(f.partial_cmp_by_spec(b, a)));
        assert(f.partial_cmp_by_spec(b, x) == flip_option(f.partial_cmp_by_spec(x, b)));
        assert(f.partial_cmp_by_spec(a, x) == flip_option(f.partial_cmp_by_spec(x, a)));
        if !spec_is_null(f, a) && !spec_is_null(f, b) && !spec_is_null(f, x) {
            if dir == Direction::Ascending {
                assert(le_some(f, a, b) && le_some(f, b, x));
                assert(le_some(f, a, x));
            } else {
                assert(le_some(f, x, b) && le_some(f, b, a));
                assert(le_some(f, x, a));
            }
        }
    }
}

/// Shorthand: both rows are drawn from `s`.
spec fn dom_pair<T>(s: Seq<T>, a: T, b: T) -> bool {
    s.contains(a) && s.contains(b)
}

/// Merging two sorted sequences yields a sorted sequence, provided `c`
/// behaves as a total preorder on a domain holding every row involved.
proof fn lemma_merge_sorted<T>(c: spec_fn(T, T) -> Ordering, a: Seq<T>, b: Seq<T>, dom: Seq<T>)
    requires
        sorted_ord(a, c),
        sorted_ord(b, c),
        forall|y: T| #[trigger] a.contains(y) ==> dom.contains(y),
        forall|y: T| #[trigger] b.contains(y) ==> dom.contains(y),
        flip_on(c, dom),
        le_trans_on(c, dom),
    ensures
        sorted_ord(merge_seqs(c, a, b), c),
    decreases a.len() + b.len(),
{
    if a.len() == 0 || b.len() == 0 {
        // the merge is the other input, which is sorted
    } else {
        let a0 = a.first();
        let b0 = b.first();
        assert(a.contains(a0) && b.contains(b0));
        let out = merge_seqs(c, a, b);
        if c(a0, b0) == Ordering::Greater {
            let b1 = b.drop_first();
            assert forall|i: int, j: int| 0 <= i < j < b1.len() implies #[trigger] c(
                b1[i],
                b1[j],
            ) != Ordering::Greater by {
                assert(c(b[i + 1], b[j + 1]) != Ordering::Greater);
            }
            assert forall|y: T| #[trigger] b1.contains(y) implies dom.contains(y) by {
                let w = choose|w: int| 0 <= w < b1.len() && b1[w] == y;
                assert(b[w + 1] == y);
                assert(b.contains(y));
            }
            lemma_merge_sorted(c, a, b1, dom);
            lemma_merge_contains(c, a, b1);
            let m = merge_seqs(c, a, b1);
            assert(c(b0, a0) == reverse_ordering(c(a0, b0)));
            assert forall|i: int| 0 <= i < m.len() implies c(b0, #[trigger] m[i])
                != Ordering::Greater by {
                assert(m.contains(m[i]));
                if a.contains(m[i]) {
                    let w = choose|w: int| 0 <= w < a.len() && a[w] == m[i];
                    if w > 0 {
                        assert(c(a[0], a[w]) != Ordering::Greater);
                    }
                } else {
                    let w = choose|w: int| 0 <= w < b1.len() && b1[w] == m[i];
                    assert(b[w + 1] == m[i]);
                    assert(c(b[0], b[w + 1]) != Ordering::Greater);
                }
            }
            assert(out == seq![b0] + m);
            assert forall|i: int, j: int| 0 <= i < j < out.len() implies #[trigger] c(
                out[i],
                out[j],
            ) != Ordering::Greater by {
                if i == 0 {
                    assert(out[j] == m[j - 1]);
                } else {
                    assert(out[i] == m[i - 1] && out[j] == m[j - 1]);
                    assert(c(m[i - 1], m[j - 1]) != Ordering::Greater);
                }
            }
        } else {
            let a1 = a.drop_first();
            assert forall|i: int, j: int| 0 <= i < j < a1.len() implies #[trigger] c(
                a1[i],
                a1[j],
            ) != Ordering::Greater by {
                assert(c(a[i + 1], a[j + 1]) != Ordering::Greater);
            }
            assert forall|y: T| #[trigger] a1.contains(y) implies dom.contains(y) by {
                let w = choose|w: int| 0 <= w < a1.len() && a1[w] == y;
                assert(a[w + 1] == y);
                assert(a.contains(y));
            }
            lemma_merge_sorted(c, a1, b, dom);
            lemma_merge_contains(c, a1, b);
            let m = merge_seqs(c, a1, b);
            assert forall|i: int| 0 <= i < m.len() implies c(a0, #[trigger] m[i])
                != Ordering::Greater by {
                assert(m.contains(m[i]));
                if a1.contains(m[i]) {
                    let w = choose|w: int| 0 <= w < a1.len() && a1[w] == m[i];
                    assert(a[w + 1] == m[i]);
                    assert(c(a[0], a[w + 1]) != Ordering::Greater);
                } else {
                    let w = choose|w: int| 0 <= w < b.len() && b[w] == m[i];
                    if w > 0 {
                        assert(c(b[0], b[w]) != Ordering::Greater);
                    }
                }
            }
            assert(out == seq![a0] + m);
            assert forall|i: int, j: int| 0 <= i < j < out.len() implies #[trigger] c(
                out[i],
                out[j],
            ) != Ordering::Greater by {
                if i == 0 {
                    assert(out[j] == m[j - 1]);
                } else {
                    assert(out[i] == m[i - 1] && out[j] == m[j - 1]);
                    assert(c(m[i - 1], m[j - 1]) != Ordering::Greater);
                }
            }
        }
    }
}

/// The sort of any subset of a domain on which `c` behaves as a total
/// preorder is sorted.
proof fn lemma_sort_seq_sorted_in<T>(c: spec_fn(T, T) -> Ordering, s: Seq<T>, dom: Seq<T>)
    requires
        forall|y: T| #[trigger] s.contains(y) ==> dom.contains(y),
        flip_on(c, dom),
        le_trans_on(c, dom),
    ensures
        sorted_ord(sort_seq(c, s), c),
    decreases s.len(),
{
    if s.len() > 1 {
        let mid = s.len() as int / 2;
        let sl = s.take(mid);
        let sr = s.skip(mid);
        assert forall|y: T| #[trigger] sl.contains(y) implies dom.contains(y) by {
            let w = choose|w: int| 0 <= w < sl.len() && sl[w] == y;
            assert(s[w] == y);
            assert(s.contains(y));
        }
        assert forall|y: T| #[trigger] sr.contains(y) implies dom.contains(y) by {
            let w = choose|w: int| 0 <= w < sr.len() && sr[w] == y;
            assert(s[mid + w] == y);
            assert(s.contains(y));
        }
        lemma_sort_seq_sorted_in(c, sl, dom);
        lemma_sort_seq_sorted_in(c, sr, dom);
        lemma_sort_seq_elements(c, sl);
        lemma_sort_seq_elements(c, sr);
        lemma_merge_sorted(c, sort_seq(c, sl), sort_seq(c, sr), dom);
    }
}

/// The sort permutes its input: same contents as a multiset, hence the same
/// length and the same elements.  No assumption on the comparator is
/// needed.
pub proof fn lemma_sort_by_permutes<T, F: PartialOrdBy<T>>(
    f: F,
    dir: Direction,
    nulls: NullHandling,
    s: Seq<T>,
)
    ensures
        sort_by_view(f, dir, nulls, s).to_multiset() == s.to_multiset(),
        sort_by_view(f, dir, nulls, s).len() == s.len(),
        forall|x: T| #[trigger] sort_by_view(f, dir, nulls, s).contains(x) <==> s.contains(x),
{
    lemma_sort_seq_multiset(cmp_fn(f, dir, nulls), s);
    lemma_sort_seq_elements(cmp_fn(f, dir, nulls), s);
}

/// Merging adds the filtered lengths of its inputs.
proof fn lemma_merge_filter_len<T>(
    c: spec_fn(T, T) -> Ordering,
    a: Seq<T>,
    b: Seq<T>,
    p: spec_fn(T) -> bool,
)
    ensures
        merge_seqs(c, a, b).filter(p).len() == a.filter(p).len() + b.filter(p).len(),
    decreases a.len() + b.len(),
{
    broadcast use vstd::prelude::Seq::filter_distributes_over_add;

    if a.len() == 0 {
        assert(a.filter(p).len() == 0) by {
            reveal(Seq::filter);
        }
    } else if b.len() == 0 {
        assert(b.filter(p).len() == 0) by {
            reveal(Seq::filter);
        }
    } else if c(a.first(), b.first()) == Ordering::Greater {
        lemma_merge_filter_len(c, a, b.drop_first(), p);
        assert(b =~= seq![b.first()] + b.drop_first());
        assert(b.filter(p) == seq![b.first()].filter(p) + b.drop_first().filter(p));
    } else {
        lemma_merge_filter_len(c, a.drop_first(), b, p);
        assert(a =~= seq![a.first()] + a.drop_first());
        assert(a.filter(p) == seq![a.first()].filter(p) + a.drop_first().filter(p));
    }
}

/// The sort leaves every filtered length unchanged.
proof fn lemma_sort_seq_filter_len<T>(c: spec_fn(T, T) -> Ordering, s: Seq<T>, p: spec_fn(T) -> bool)
    ensures
        sort_seq(c, s).filter(p).len() == s.filter(p).len(),
    decreases s.len(),
{
    broadcast use vstd::prelude::Seq::filter_distributes_over_add;

    if s.len() > 1 {
        let mid = s.len() as int / 2;
        lemma_sort_seq_filter_len(c, s.take(mid), p);
        lemma_sort_seq_filter_len(c, s.skip(mid), p);
        lemma_merge_filter_len(c, sort_seq(c, s.take(mid)), sort_seq(c, s.skip(mid)), p);
        assert(s =~= s.take(mid) + s.skip(mid));
        assert(s.filter(p) == s.take(mid).filter(p) + s.skip(mid).filter(p));
    }
}

/// In a sequence where `p` can only step from true to false, the rows
/// satisfying `p` are exactly the prefix of the filtered length.
proof fn lemma_monotone_prefix<T>(t: Seq<T>, p: spec_fn(T) -> bool)
    requires
        forall|i: int, j: int| 0 <= i < j < t.len() && p(#[trigger] t[j]) ==> p(#[trigger] t[i]),
    ensures
        forall|i: int| 0 <= i < t.len() ==> (p(#[trigger] t[i]) <==> i < t.filter(p).len()),
    decreases t.len(),
{
    broadcast use vstd::prelude::Seq::lemma_filter_len_push;
    broadcast use vstd::prelude::Seq::lemma_filter_len;

    if t.len() > 0 {
        let t0 = t.drop_last();
        assert(t =~= t0.push(t.last()));
        lemma_monotone_prefix(t0, p);
        if p(t.last()) {
            assert forall|i: int| 0 <= i < t0.len() implies p(#[trigger] t0[i]) by {
                assert(p(t[t.len() - 1]));
            }
            if t0.len() > 0 {
                assert(p(t0[t0.len() - 1]));
                assert(t0.len() - 1 < t0.filter(p).len());
            }
            assert(t0.filter(p).len() == t0.len());
        }
    }
}

/// In a sequence where `p` can only step from false to true, the rows
/// satisfying `p` are exactly the suffix of the filtered length.
proof fn lemma_monotone_suffix<T>(t: Seq<T>, p: spec_fn(T) -> bool)
    requires
        forall|i: int, j: int| 0 <= i < j < t.len() && p(#[trigger] t[i]) ==> p(#[trigger] t[j]),
    ensures
        forall|i: int| 0 <= i < t.len() ==> (p(#[trigger] t[i]) <==> i >= t.len() - t.filter(
            p,
        ).len()),
    decreases t.len(),
{
    broadcast use vstd::prelude::Seq::lemma_filter_len_push;
    broadcast use vstd::prelude::Seq::lemma_filter_len;

    if t.len() > 0 {
        let t0 = t.drop_last();
        assert(t =~= t0.push(t.last()));
        lemma_monotone_suffix(t0, p);
        if !p(t.last()) {
            assert(t0.filter(p).len() == 0) by {
                if t0.filter(p).len() > 0 {
                    assert(p(t0[t0.len() - 1]));
                    assert(p(t[t0.len() - 1]));
                    assert(p(t[t.len() - 1]));
                }
            }
        }
    }
}

/// The predicate selecting the `NULL` rows of field `f`.
pub open spec fn null_pred<T, F: PartialOrdBy<T>>(f: F) -> spec_fn(T) -> bool {
    |x: T| spec_is_null(f, x)
}

/// How many rows of `s` are `NULL` under field `f`.
pub open spec fn null_count<T, F: PartialOrdBy<T>>(f: F, s: Seq<T>) -> int {
    s.filter(null_pred(f)).len() as int
}

/// `NULL` placement is independent of the direction: with `First` the
/// `NULL` rows of the input form exactly the prefix of the output, with
/// `Last` exactly the suffix — in both cases a contiguous block whose
/// length is the number of `NULL` rows, whatever the [`Direction`].
pub proof fn lemma_null_placement<T, F: PartialOrdBy<T>>(
    f: F,
    dir: Direction,
    nulls: NullHandling,
    s: Seq<T>,
)
    requires
        lawful_on(f, s),
    ensures
        ({
            let out = sort_by_view(f, dir, nulls, s);
            let k = null_count(f, s);
            &&& out.len() == s.len()
            &&& forall|i: int|
                0 <= i < out.len() ==> (spec_is_null(f, #[trigger] out[i]) <==> (
                if nulls == NullHandling::First {
                    i < k
                } else {
                    i >= out.len() - k
                }))
        }),
{
    let c = cmp_fn(f, dir, nulls);
    let out = sort_seq(c, s);
    let p = null_pred::<T, F>(f);
    lemma_sort_seq_elements(c, s);
    lemma_sort_by_sorted(f, dir, nulls, s);
    lemma_sort_seq_filter_len(c, s, p);
    if nulls == NullHandling::First {
        assert forall|i: int, j: int|
            0 <= i < j < out.len() && p(#[trigger] out[j]) implies p(#[trigger] out[i]) by {
            if !spec_is_null(f, out[i]) {
                assert(out.contains(out[i]));
                assert(out.contains(out[j]));
                assert(f.partial_cmp_by_spec(out[i], out[j]) is None);
                assert(c(out[i], out[j]) == Ordering::Greater);
            }
        }
        lemma_monotone_prefix(out, p);
    } else {
        assert forall|i: int, j: int|
            0 <= i < j < out.len() && p(#[trigger] out[i]) implies p(#[trigger] out[j]) by {
            if !spec_is_null(f, out[j]) {
                assert(out.contains(out[i]));
                assert(out.contains(out[j]));
                assert(f.partial_cmp_by_spec(out[i], out[j]) is None);
                assert(c(out[i], out[j]) == Ordering::Greater);
            }
        }
        lemma_monotone_suffix(out, p);
    }
}

/// Merging keeps a whole rank class in order: its rows come out as those of
/// the left input followed by those of the right, exactly as they went in.
/// Needs the left input sorted — the merge takes a right-hand row early
/// only when the left head is strictly greater, which a sorted left input
/// rules out for rows of the class.
proof fn lemma_merge_filter_class<T>(
    c: spec_fn(T, T) -> Ordering,
    a: Seq<T>,
    b: Seq<T>,
    p: spec_fn(T) -> bool,
    dom: Seq<T>,
)
    requires
        sorted_ord(a, c),
        forall|y: T| #[trigger] a.contains(y) ==> dom.contains(y),
        forall|y: T| #[trigger] b.contains(y) ==> dom.contains(y),
        le_trans_on(c, dom),
        forall|y: T, z: T| #![trigger p(y), p(z)]
            dom.contains(y) && dom.contains(z) && p(y) && p(z) ==> c(y, z) == Ordering::Equal,
    ensures
        merge_seqs(c, a, b).filter(p) == a.filter(p) + b.filter(p),
    decreases a.len() + b.len(),
{
    broadcast use vstd::prelude::Seq::filter_distributes_over_add;

    if a.len() == 0 {
        assert(a.filter(p).len() == 0) by {
            reveal(Seq::filter);
        }
        assert(a.filter(p) =~= Seq::<T>::empty());
        assert(merge_seqs(c, a, b).filter(p) =~= a.filter(p) + b.filter(p));
    } else if b.len() == 0 {
        assert(b.filter(p).len() == 0) by {
            reveal(Seq::filter);
        }
        assert(b.filter(p) =~= Seq::<T>::empty());
        assert(merge_seqs(c, a, b).filter(p) =~= a.filter(p) + b.filter(p));
    } else {
        let a0 = a.first();
        let b0 = b.first();
        assert(a.contains(a0) && b.contains(b0));
        if c(a0, b0) == Ordering::Greater {
            let b1 = b.drop_first();
            assert forall|y: T| #[trigger] b1.contains(y) implies dom.contains(y) by {
                let w = choose|w: int| 0 <= w < b1.len() && b1[w] == y;
                assert(b[w + 1] == y);
                assert(b.contains(y));
            }
            lemma_merge_filter_class(c, a, b1, p, dom);
            assert(b =~= seq![b0] + b1);
            assert(b.filter(p) == seq![b0].filter(p) + b1.filter(p));
            assert(merge_seqs(c, a, b).filter(p) == seq![b0].filter(p) + (a.filter(p)
                + b1.filter(p)));
            if p(b0) {
                // no row of the class can still be in `a`: the sorted left
                // head is strictly greater than `b0`, hence greater than
                // every row ranked with it
                assert forall|i: int| 0 <= i < a.len() implies !p(#[trigger] a[i]) by {
                    if p(a[i]) {
                        assert(a.contains(a[i]));
                        assert(c(a[i], b0) == Ordering::Equal);
                        if i > 0 {
                            assert(c(a[0], a[i]) != Ordering::Greater);
                        }
                        assert(false);
                    }
                }
                a.lemma_all_neg_filter_empty(p);
                assert(a.filter(p) =~= Seq::<T>::empty());
                assert(merge_seqs(c, a, b).filter(p) =~= a.filter(p) + b.filter(p));
            } else {
                assert(seq![b0].filter(p).len() == 0) by {
                    reveal_with_fuel(Seq::filter, 2);
                }
                assert(seq![b0].filter(p) =~= Seq::<T>::empty());
                assert(merge_seqs(c, a, b).filter(p) =~= a.filter(p) + b.filter(p));
            }
        } else {
            let a1 = a.drop_first();
            assert forall|i: int, j: int| 0 <= i < j < a1.len() implies #[trigger] c(
                a1[i],
                a1[j],
            ) != Ordering::Greater by {
                assert(c(a[i + 1], a[j + 1]) != Ordering::Greater);
            }
            assert forall|y: T| #[trigger] a1.contains(y) implies dom.contains(y) by {
                let w = choose|w: int| 0 <= w < a1.len() && a1[w] == y;
                assert(a[w + 1] == y);
                assert(a.contains(y));
            }
            lemma_merge_filter_class(c, a1, b, p, dom);
            assert(a =~= seq![a0] + a1);
            assert(a.filter(p) == seq![a0].filter(p) + a1.filter(p));
            assert(merge_seqs(c, a, b).filter(p) == seq![a0].filter(p) + (a1.filter(p)
                + b.filter(p)));
            assert(merge_seqs(c, a, b).filter(p) =~= a.filter(p) + b.filter(p));
        }
    }
}

/// Sorting does not reorder within a rank class: the filtered view of the
/// sort equals the filtered view of the input, for any predicate selecting
/// rows that all compare equal to one another.
proof fn lemma_sort_seq_filter_class<T>(
    c: spec_fn(T, T) -> Ordering,
    s: Seq<T>,
    p: spec_fn(T) -> bool,
    dom: Seq<T>,
)
    requires
        forall|y: T| #[trigger] s.contains(y) ==> dom.contains(y),
        flip_on(c, dom),
        le_trans_on(c, dom),
        forall|y: T, z: T| #![trigger p(y), p(z)]
            dom.contains(y) && dom.contains(z) && p(y) && p(z) ==> c(y, z) == Ordering::Equal,
    ensures
        sort_seq(c, s).filter(p) == s.filter(p),
    decreases s.len(),
{
    broadcast use vstd::prelude::Seq::filter_distributes_over_add;

    if s.len() > 1 {
        let mid = s.len() as int / 2;
        let sl = s.take(mid);
        let sr = s.skip(mid);
        assert forall|y: T| #[trigger] sl.contains(y) implies dom.contains(y) by {
            let w = choose|w: int| 0 <= w < sl.len() && sl[w] == y;
            assert(s[w] == y);
            assert(s.contains(y));
        }
        assert forall|y: T| #[trigger] sr.contains(y) implies dom.contains(y) by {
            let w = choose|w: int| 0 <= w < sr.len() && sr[w] == y;
            assert(s[mid + w] == y);
            assert(s.contains(y));
        }
        lemma_sort_seq_filter_class(c, sl, p, dom);
        lemma_sort_seq_filter_class(c, sr, p, dom);
        lemma_sort_seq_sorted_in(c, sl, dom);
        lemma_sort_seq_elements(c, sl);
        lemma_sort_seq_elements(c, sr);
        lemma_merge_filter_class(c, sort_seq(c, sl), sort_seq(c, sr), p, dom);
        assert(s =~= sl + sr);
        assert(s.filter(p) == sl.filter(p) + sr.filter(p));
    }
}

/// A sorted sequence read backwards is sorted under the pointwise reversed
/// comparison.
proof fn lemma_reverse_sorted<T>(
    a: Seq<T>,
    c1: spec_fn(T, T) -> Ordering,
    c2: spec_fn(T, T) -> Ordering,
    dom: Seq<T>,
)
    requires
        sorted_ord(a, c1),
        forall|y: T| #[trigger] a.contains(y) ==> dom.contains(y),
        flip_on(c1, dom),
        forall|y: T, z: T| #![trigger c2(y, z)]
            dom.contains(y) && dom.contains(z) ==> c2(y, z) == reverse_ordering(c1(y, z)),
    ensures
        sorted_ord(a.reverse(), c2),
{
    let r = a.reverse();
    assert forall|i: int, j: int| 0 <= i < j < r.len() implies #[trigger] c2(r[i], r[j])
        != Ordering::Greater by {
        let n = a.len();
        let u = n - 1 - i;
        let v = n - 1 - j;
        assert(r[i] == a[u] && r[j] == a[v]);
        assert(a.contains(a[u]) && a.contains(a[v]));
        assert(c1(a[v], a[u]) != Ordering::Greater);
        assert(c1(a[u], a[v]) == reverse_ordering(c1(a[v], a[u])));
        assert(c2(a[u], a[v]) == reverse_ordering(c1(a[u], a[v])));
    }
}

/// Two sorted sequences with the same contents are identical, when equal
/// ranks occur only between identical rows.
proof fn lemma_sorted_unique<T>(c: spec_fn(T, T) -> Ordering, a: Seq<T>, b: Seq<T>, dom: Seq<T>)
    requires
        a.to_multiset() == b.to_multiset(),
        sorted_ord(a, c),
        sorted_ord(b, c),
        forall|y: T| #[trigger] a.contains(y) ==> dom.contains(y),
        flip_on(c, dom),
        forall|y: T, z: T| #![trigger c(y, z)]
            dom.contains(y) && dom.contains(z) && c(y, z) == Ordering::Equal ==> y == z,
    ensures
        a == b,
    decreases a.len(),
{
    broadcast use vstd::seq_lib::group_to_multiset_ensures;
    broadcast use vstd::multiset::group_multiset_axioms;

    a.to_multiset_ensures();
    b.to_multiset_ensures();
    if a.len() == 0 {
        assert(b.to_multiset().len() == 0);
        assert(a =~= b);
    } else {
        assert(b.len() == a.len());
        assert(a.contains(a[0]));
        assert(b.to_multiset().count(a[0]) > 0);
        assert(b.contains(a[0]));
        let wb = choose|w: int| 0 <= w < b.len() && b[w] == a[0];
        assert(b.contains(b[0]));
        assert(a.to_multiset().count(b[0]) > 0);
        assert(a.contains(b[0]));
        let wa = choose|w: int| 0 <= w < a.len() && a[w] == b[0];
        if a[0] != b[0] {
            assert(wb != 0 && wa != 0);
            assert(c(b[0], b[wb]) != Ordering::Greater);
            assert(c(a[0], a[wa]) != Ordering::Greater);
            assert(dom.contains(a[0]) && dom.contains(b[0]));
            assert(c(a[0], b[0]) == reverse_ordering(c(b[0], a[0])));
            assert(false);
        }
        let a1 = a.drop_first();
        let b1 = b.drop_first();
        assert(a1 =~= a.remove(0));
        assert(b1 =~= b.remove(0));
        assert(a1.to_multiset() =~= a.to_multiset().remove(a[0]));
        assert(b1.to_multiset() =~= b.to_multiset().remove(b[0]));
        assert forall|i: int, j: int| 0 <= i < j < a1.len() implies #[trigger] c(a1[i], a1[j])
            != Ordering::Greater by {
            assert(c(a[i + 1], a[j + 1]) != Ordering::Greater);
        }
        assert forall|i: int, j: int| 0 <= i < j < b1.len() implies #[trigger] c(b1[i], b1[j])
            != Ordering::Greater by {
            assert(c(b[i + 1], b[j + 1]) != Ordering::Greater);
        }
        assert forall|y: T| #[trigger] a1.contains(y) implies dom.contains(y) by {
            let w = choose|w: int| 0 <= w < a1.len() && a1[w] == y;
            assert(a[w + 1] == y);
            assert(a.contains(y));
        }
        lemma_sorted_unique(c, a1, b1, dom);
        assert forall|i: int| 0 <= i < a.len() implies a[i] == b[i] by {
            if i > 0 {
                assert(a1[i - 1] == a[i] && b1[i - 1] == b[i]);
            }
        }
        assert(a =~= b);
    }
}

/// Ascending/descending symmetry: on rows with no `NULL` values and no two
/// distinct rows of equal rank, the descending sort is the exact reverse of
/// the ascending sort — both when it starts from the original rows and when
/// it re-sorts the already ascending-sorted rows.
pub proof fn lemma_direction_symmetry<T, F: PartialOrdBy<T>>(f: F, nulls: NullHandling, s: Seq<T>)
    requires
        lawful_on(f, s),
        forall|x: T| #[trigger] s.contains(x) ==> !spec_is_null(f, x),
        forall|a: T, b: T| #![trigger f.partial_cmp_by_spec(a, b)]
            s.contains(a) && s.contains(b) && f.partial_cmp_by_spec(a, b) == Some(Ordering::Equal)
                ==> a == b,
    ensures
        sort_by_view(f, Direction::Descending, nulls, s) == sort_by_view(
            f,
            Direction::Ascending,
            nulls,
            s,
        ).reverse(),
        sort_by_view(
            f,
            Direction::Descending,
            nulls,
            sort_by_view(f, Direction::Ascending, nulls, s),
        ) == sort_by_view(f, Direction::Ascending, nulls, s).reverse(),
{
    let ca = cmp_fn(f, Direction::Ascending, nulls);
    let cd = cmp_fn(f, Direction::Descending, nulls);
    let a = sort_seq(ca, s);
    let d = sort_seq(cd, s);
    lemma_full_cmp_props(f, Direction::Ascending, nulls, s);
    lemma_full_cmp_props(f, Direction::Descending, nulls, s);
    lemma_sort_seq_multiset(ca, s);
    lemma_sort_seq_multiset(cd, s);
    lemma_sort_seq_elements(ca, s);
    lemma_sort_seq_elements(cd, s);
    lemma_sort_seq_sorted_in(ca, s, s);
    lemma_sort_seq_sorted_in(cd, s, s);
    assert forall|y: T, z: T|
        #![trigger cd(y, z)]
        s.contains(y) && s.contains(z) implies cd(y, z) == reverse_ordering(ca(y, z)) by {
        assert(f.partial_cmp_by_spec(y, z) is None <==> (spec_is_null(f, y) || spec_is_null(
            f,
            z,
        )));
    }
    assert forall|y: T, z: T|
        #![trigger cd(y, z)]
        s.contains(y) && s.contains(z) && cd(y, z) == Ordering::Equal implies y == z by {
        assert(f.partial_cmp_by_spec(y, z) is None <==> (spec_is_null(f, y) || spec_is_null(
            f,
            z,
        )));
    }
    lemma_reverse_sorted(a, ca, cd, s);
    a.lemma_reverse_to_multiset();
    lemma_sorted_unique(cd, d, a.reverse(), s);
    let d2 = sort_seq(cd, a);
    lemma_sort_seq_sorted_in(cd, a, s);
    lemma_sort_seq_multiset(cd, a);
    lemma_sort_seq_elements(cd, a);
    lemma_sorted_unique(cd, d2, a.reverse(), s);
}

/// Whether rows `y` and `e` occupy the same rank under field `f`: their
/// comparison is defined and equal, or both are `NULL` values.  Rows of the
/// same rank compare equal in the sort whatever the direction and `NULL`
/// placement.
pub open spec fn same_rank<T, F: PartialOrdBy<T>>(f: F, y: T, e: T) -> bool {
    f.partial_cmp_by_spec(y, e) == Some(Ordering::Equal) || (spec_is_null(f, y) && spec_is_null(
        f,
        e,
    ))
}

/// The predicate selecting the rows of `e`'s rank class.
pub open spec fn rank_pred<T, F: PartialOrdBy<T>>(f: F, e: T) -> spec_fn(T) -> bool {
    |y: T| same_rank(f, y, e)
}

/// Stability: rows that compare equal under the active field — including
/// rows that are both `NULL` — keep their relative order across the sort.
/// Stated per rank class: the subsequence of rows ranked with `e` is the
/// same before and after sorting.
pub proof fn lemma_sort_stable<T, F: PartialOrdBy<T>>(
    f: F,
    dir: Direction,
    nulls: NullHandling,
    s: Seq<T>,
    e: T,
)
    requires
        lawful_on(f, s),
        s.contains(e),
    ensures
        sort_by_view(f, dir, nulls, s).filter(rank_pred(f, e)) == s.filter(rank_pred(f, e)),
{
    let c = cmp_fn(f, dir, nulls);
    let p = rank_pred(f, e);
    assert forall|y: T, z: T|
        #![trigger p(y), p(z)]
        s.contains(y) && s.contains(z) && p(y) && p(z) implies c(y, z) == Ordering::Equal by {
        assert(f.partial_cmp_by_spec(y, e) == flip_option(f.partial_cmp_by_spec(e, y)));
        assert(f.partial_cmp_by_spec(z, e) == flip_option(f.partial_cmp_by_spec(e, z)));
        assert(f.partial_cmp_by_spec(y, z) == flip_option(f.partial_cmp_by_spec(z, y)));
        if f.partial_cmp_by_spec(y, e) == Some(Ordering::Equal) && f.partial_cmp_by_spec(z, e)
            == Some(Ordering::Equal) {
            assert(le_some(f, y, e) && le_some(f, e, z));
            assert(le_some(f, y, z));
            assert(le_some(f, z, e) && le_some(f, e, y));
            assert(le_some(f, z, y));
        }
    }
    lemma_full_cmp_props(f, dir, nulls, s);
    lemma_sort_seq_filter_class(c, s, p, s);
}

/// The sort orders its output: the result is sorted under the resolved
/// total comparison [`full_cmp`](crate::full_cmp) of the field, direction
/// and `NULL` placement used.
pub proof fn lemma_sort_by_sorted<T, F: PartialOrdBy<T>>(
    f: F,
    dir: Direction,
    nulls: NullHandling,
    s: Seq<T>,
)
    requires
        lawful_on(f, s),
    ensures
        sorted_ord(sort_by_view(f, dir, nulls, s), cmp_fn(f, dir, nulls)),
{
    lemma_full_cmp_props(f, dir, nulls, s);
    lemma_sort_seq_sorted_in(cmp_fn(f, dir, nulls), s, s);
}

} // verus!
