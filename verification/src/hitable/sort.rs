//! The stable sort of shapes by the lower corner of their boxes.

use vstd::prelude::*;
use vstd::seq_lib::*;
use crate::hitable::aabb::AABB;
use crate::hitable::bvh::{
    all_keyed,
    comes_after,
    keyed,
    lemma_stands_after,
    shapes_of,
    sorted_on,
    stands_after,
    Entry,
};

verus! {

/// The two boxes tie on an axis: neither is to stand after the other.
pub open spec fn tied(a: Option<AABB>, b: Option<AABB>, axis: u32) -> bool {
    !stands_after(a, b, axis) && !stands_after(b, a, axis)
}

/// The test of an entry for a tie with the given box.
pub open spec fn ties_with<H>(with: Option<AABB>, axis: u32) -> spec_fn(Entry<H>) -> bool {
    |e: Entry<H>| tied(e.aabb, with, axis)
}

/// The entries that tie with the given box, in their order.
pub open spec fn class_of<H>(entries: Seq<Entry<H>>, with: Option<AABB>, axis: u32) -> Seq<
    Entry<H>,
> {
    entries.filter(ties_with(with, axis))
}

/// The entries of `after` that tie stand in the order in which they stand
/// in `before`: for every box, the entries that tie with it are the same
/// run in both.
pub open spec fn keeps_ties<H>(before: Seq<Entry<H>>, after: Seq<Entry<H>>, axis: u32) -> bool {
    forall|with: Option<AABB>|
        keyed(with) ==> #[trigger] class_of(after, with, axis) == class_of(before, with, axis)
}

/// The place of a keyed box in the order of an axis.
pub open spec fn rank_on(aabb: Option<AABB>, axis: u32) -> int {
    aabb.unwrap().min.on_axis(axis).rank()
}

/// Between keyed boxes, one stands after the other exactly when its rank
/// is the greater, and two tie exactly when their ranks are equal.
pub proof fn lemma_rank_on(a: Option<AABB>, b: Option<AABB>, axis: u32)
    requires
        keyed(a),
        keyed(b),
    ensures
        stands_after(a, b, axis) <==> rank_on(b, axis) < rank_on(a, axis),
        tied(a, b, axis) <==> rank_on(a, axis) == rank_on(b, axis),
{
    lemma_stands_after(a, b, axis);
    lemma_stands_after(b, a, axis);
}

/// The class of a run with one more entry: the class of the run, with the
/// entry where it ties.
pub proof fn lemma_class_push<H>(
    entries: Seq<Entry<H>>,
    entry: Entry<H>,
    with: Option<AABB>,
    axis: u32,
)
    ensures
        class_of(entries.push(entry), with, axis) == if tied(entry.aabb, with, axis) {
            class_of(entries, with, axis).push(entry)
        } else {
            class_of(entries, with, axis)
        },
{
    reveal(Seq::filter);
    assert(entries.push(entry).drop_last() =~= entries);
}

/// The class of two runs in a row: the two classes in a row.
pub proof fn lemma_class_add<H>(
    left: Seq<Entry<H>>,
    right: Seq<Entry<H>>,
    with: Option<AABB>,
    axis: u32,
)
    ensures
        class_of(left + right, with, axis) == class_of(left, with, axis) + class_of(
            right,
            with,
            axis,
        ),
{
    Seq::filter_distributes_over_add(left, right, ties_with(with, axis));
}

/// A run of which no entry ties has an empty class.
pub proof fn lemma_class_empty<H>(entries: Seq<Entry<H>>, with: Option<AABB>, axis: u32)
    requires
        forall|i: int| 0 <= i < entries.len() ==> !tied(#[trigger] entries[i].aabb, with, axis),
    ensures
        class_of(entries, with, axis).len() == 0,
    decreases entries.len(),
{
    reveal(Seq::filter);
    if entries.len() > 0 {
        let rest = entries.drop_last();
        assert forall|i: int| 0 <= i < rest.len() implies !tied(
            #[trigger] rest[i].aabb,
            with,
            axis,
        ) by {
            assert(rest[i] == entries[i]);
        }
        lemma_class_empty(rest, with, axis);
        assert(!tied(entries[entries.len() - 1].aabb, with, axis));
    }
}

/// The same entries from the last to the first.
pub fn reversed<T>(items: Vec<T>) -> (back: Vec<T>)
    ensures
        back@.len() == items@.len(),
        forall|k: int| 0 <= k < back@.len() ==> back@[k] == items@[items@.len() - 1 - k],
{
    let mut items = items;
    let ghost given = items@;
    let mut back: Vec<T> = Vec::new();
    while items.len() > 0
        invariant
            back@.len() + items@.len() == given.len(),
            items@ == given.take(items@.len() as int),
            forall|k: int| 0 <= k < back@.len() ==> back@[k] == given[given.len() - 1 - k],
        decreases items@.len(),
    {
        let item = items.pop().unwrap();
        back.push(item);
        assert(items@ =~= given.take(items@.len() as int));
    }
    back
}

/// The two runs are sorted runs of keyed entries.
pub open spec fn mergeable<H>(lefts: Seq<Entry<H>>, rights: Seq<Entry<H>>, axis: u32) -> bool {
    all_keyed(lefts) && all_keyed(rights) && sorted_on(lefts, axis) && sorted_on(rights, axis)
}

/// Merges two sorted runs into one. Of two entries that tie, the one from
/// the left run comes first.
pub fn merge<H>(left: Vec<Entry<H>>, right: Vec<Entry<H>>, axis: u32) -> (out: Vec<Entry<H>>)
    ensures
        out@.len() == left@.len() + right@.len(),
        out@.to_multiset() == left@.to_multiset().add(right@.to_multiset()),
        shapes_of(out@).to_multiset() == shapes_of(left@).to_multiset().add(
            shapes_of(right@).to_multiset(),
        ),
        mergeable(left@, right@, axis) ==> all_keyed(out@) && sorted_on(out@, axis) && keeps_ties(
            left@ + right@,
            out@,
            axis,
        ),
{
    let ghost lefts = left@;
    let ghost rights = right@;
    let ghost good = mergeable(lefts, rights, axis);
    let mut l = reversed(left);
    let mut r = reversed(right);
    let mut out: Vec<Entry<H>> = Vec::new();
    proof {
        assert(lefts.take(0) =~= Seq::empty());
        assert(rights.take(0) =~= Seq::empty());
        assert(shapes_of(out@) =~= Seq::empty());
        assert(shapes_of(lefts.take(0)) =~= Seq::empty());
        assert(shapes_of(rights.take(0)) =~= Seq::empty());
        lemma_multiset_commutative(lefts.take(0), rights.take(0));
        assert(out@ =~= lefts.take(0) + rights.take(0));
        lemma_multiset_commutative(shapes_of(lefts.take(0)), shapes_of(rights.take(0)));
        assert(shapes_of(out@) =~= shapes_of(lefts.take(0)) + shapes_of(rights.take(0)));
        assert forall|with: Option<AABB>| #[trigger]
            class_of(out@, with, axis) == class_of(lefts.take(0), with, axis) + class_of(
                rights.take(0),
                with,
                axis,
            ) by {
            reveal(Seq::filter);
            assert(class_of(out@, with, axis) =~= Seq::<Entry<H>>::empty());
            assert(class_of(lefts.take(0), with, axis) =~= Seq::<Entry<H>>::empty());
            assert(class_of(rights.take(0), with, axis) =~= Seq::<Entry<H>>::empty());
        }
    }
    while l.len() > 0 || r.len() > 0
        invariant
            good == mergeable(lefts, rights, axis),
            l@.len() <= lefts.len(),
            r@.len() <= rights.len(),
            forall|k: int| 0 <= k < l@.len() ==> l@[k] == lefts[lefts.len() - 1 - k],
            forall|k: int| 0 <= k < r@.len() ==> r@[k] == rights[rights.len() - 1 - k],
            out@.len() == (lefts.len() - l@.len()) + (rights.len() - r@.len()),
            out@.to_multiset() == lefts.take(lefts.len() - l@.len()).to_multiset().add(
                rights.take(rights.len() - r@.len()).to_multiset(),
            ),
            shapes_of(out@).to_multiset() == shapes_of(
                lefts.take(lefts.len() - l@.len()),
            ).to_multiset().add(shapes_of(rights.take(rights.len() - r@.len())).to_multiset()),
            good ==> merged_so_far(
                lefts,
                rights,
                lefts.len() - l@.len(),
                rights.len() - r@.len(),
                out@,
                axis,
            ),
        decreases l@.len() + r@.len(),
    {
        let ghost a = lefts.len() - l@.len();
        let ghost b = rights.len() - r@.len();
        let ghost before = out@;
        let from_right = if l.len() == 0 {
            true
        } else if r.len() == 0 {
            false
        } else {
            comes_after(&l[l.len() - 1].aabb, &r[r.len() - 1].aabb, axis)
        };
        if from_right {
            let entry = r.pop().unwrap();
            assert(entry == rights[b]);
            out.push(entry);
            proof {
                lemma_take_one_more(rights, b);
                lemma_take_right(lefts, rights, a, b, before, axis);
            }
        } else {
            let entry = l.pop().unwrap();
            assert(entry == lefts[a]);
            out.push(entry);
            proof {
                lemma_take_one_more(lefts, a);
                lemma_take_left(lefts, rights, a, b, before, axis);
            }
        }
    }
    proof {
        assert(lefts.take(lefts.len() as int) =~= lefts);
        assert(rights.take(rights.len() as int) =~= rights);
        if good {
            assert forall|with: Option<AABB>| keyed(with) implies #[trigger] class_of(
                out@,
                with,
                axis,
            ) == class_of(lefts + rights, with, axis) by {
                lemma_class_add(lefts, rights, with, axis);
            }
        }
    }
    out
}

/// What holds in the middle of a merge of two sorted runs of keyed entries,
/// when `a` entries of the left run and `b` of the right were taken: what
/// was put out is keyed and sorted, nothing of it is to stand after what is
/// left of the two runs, every entry taken from the right stands before what
/// is left of the left run, and entries that tie stand as in the two runs,
/// the left ones first.
pub open spec fn merged_so_far<H>(
    lefts: Seq<Entry<H>>,
    rights: Seq<Entry<H>>,
    a: int,
    b: int,
    out: Seq<Entry<H>>,
    axis: u32,
) -> bool {
    &&& all_keyed(out)
    &&& sorted_on(out, axis)
    &&& forall|i: int, k: int|
        0 <= i < out.len() && a <= k < lefts.len() ==> !stands_after(
            #[trigger] out[i].aabb,
            #[trigger] lefts[k].aabb,
            axis,
        )
    &&& forall|i: int, k: int|
        0 <= i < out.len() && b <= k < rights.len() ==> !stands_after(
            #[trigger] out[i].aabb,
            #[trigger] rights[k].aabb,
            axis,
        )
    &&& forall|j: int, k: int|
        0 <= j < b && a <= k < lefts.len() ==> stands_after(
            #[trigger] lefts[k].aabb,
            #[trigger] rights[j].aabb,
            axis,
        )
    &&& forall|with: Option<AABB>|
        keyed(with) ==> #[trigger] class_of(out, with, axis) == class_of(
            lefts.take(a),
            with,
            axis,
        ) + class_of(rights.take(b), with, axis)
}

/// One entry more of a run, as multisets see it.
pub proof fn lemma_take_one_more<H>(entries: Seq<Entry<H>>, n: int)
    requires
        0 <= n < entries.len(),
    ensures
        entries.take(n + 1) == entries.take(n).push(entries[n]),
        entries.take(n + 1).to_multiset() == entries.take(n).to_multiset().insert(entries[n]),
        shapes_of(entries.take(n + 1)) == shapes_of(entries.take(n)).push(entries[n].shape),
        shapes_of(entries.take(n + 1)).to_multiset() == shapes_of(
            entries.take(n),
        ).to_multiset().insert(entries[n].shape),
{
    assert(entries.take(n + 1) =~= entries.take(n).push(entries[n]));
    assert(shapes_of(entries.take(n + 1)) =~= shapes_of(entries.take(n)).push(entries[n].shape));
    to_multiset_build(entries.take(n), entries[n]);
    to_multiset_build(shapes_of(entries.take(n)), entries[n].shape);
}

/// The step of a merge that takes the next entry of the right run: it is
/// taken where the left run is used up, or its next entry is to stand after.
pub proof fn lemma_take_right<H>(
    lefts: Seq<Entry<H>>,
    rights: Seq<Entry<H>>,
    a: int,
    b: int,
    out: Seq<Entry<H>>,
    axis: u32,
)
    requires
        0 <= a <= lefts.len(),
        0 <= b < rights.len(),
        out.to_multiset() == lefts.take(a).to_multiset().add(rights.take(b).to_multiset()),
        shapes_of(out).to_multiset() == shapes_of(lefts.take(a)).to_multiset().add(
            shapes_of(rights.take(b)).to_multiset(),
        ),
        mergeable(lefts, rights, axis) ==> merged_so_far(lefts, rights, a, b, out, axis),
        a == lefts.len() || stands_after(lefts[a].aabb, rights[b].aabb, axis),
    ensures
        out.push(rights[b]).to_multiset() == lefts.take(a).to_multiset().add(
            rights.take(b + 1).to_multiset(),
        ),
        shapes_of(out.push(rights[b])).to_multiset() == shapes_of(lefts.take(a)).to_multiset().add(
            shapes_of(rights.take(b + 1)).to_multiset(),
        ),
        mergeable(lefts, rights, axis) ==> merged_so_far(
            lefts,
            rights,
            a,
            b + 1,
            out.push(rights[b]),
            axis,
        ),
{
    let entry = rights[b];
    let next = out.push(entry);
    lemma_take_one_more(rights, b);
    to_multiset_build(out, entry);
    to_multiset_build(shapes_of(out), entry.shape);
    assert(shapes_of(next) =~= shapes_of(out).push(entry.shape));
    assert(next.to_multiset() =~= lefts.take(a).to_multiset().add(
        rights.take(b + 1).to_multiset(),
    ));
    assert(shapes_of(next).to_multiset() =~= shapes_of(lefts.take(a)).to_multiset().add(
        shapes_of(rights.take(b + 1)).to_multiset(),
    ));
    if mergeable(lefts, rights, axis) {
        assert(keyed(rights[b].aabb));
        assert forall|i: int| 0 <= i < next.len() implies keyed(#[trigger] next[i].aabb) by {
            if i < out.len() {
                assert(next[i] == out[i]);
            }
        }
        assert forall|i: int, j: int| 0 <= i < j < next.len() implies !stands_after(
            #[trigger] next[i].aabb,
            #[trigger] next[j].aabb,
            axis,
        ) by {
            assert(next[i] == out[i]);
            if j < out.len() {
                assert(next[j] == out[j]);
            } else {
                assert(!stands_after(out[i].aabb, rights[b].aabb, axis));
            }
        }
        assert forall|i: int, k: int|
            0 <= i < next.len() && a <= k < lefts.len() implies !stands_after(
            #[trigger] next[i].aabb,
            #[trigger] lefts[k].aabb,
            axis,
        ) by {
            if i < out.len() {
                assert(next[i] == out[i]);
            } else {
                assert(keyed(lefts[k].aabb) && keyed(lefts[a].aabb));
                lemma_rank_on(lefts[a].aabb, rights[b].aabb, axis);
                lemma_rank_on(lefts[a].aabb, lefts[k].aabb, axis);
                lemma_rank_on(rights[b].aabb, lefts[k].aabb, axis);
            }
        }
        assert forall|i: int, k: int|
            0 <= i < next.len() && b + 1 <= k < rights.len() implies !stands_after(
            #[trigger] next[i].aabb,
            #[trigger] rights[k].aabb,
            axis,
        ) by {
            if i < out.len() {
                assert(next[i] == out[i]);
            }
        }
        assert forall|j: int, k: int| 0 <= j < b + 1 && a <= k < lefts.len() implies stands_after(
            #[trigger] lefts[k].aabb,
            #[trigger] rights[j].aabb,
            axis,
        ) by {
            if j == b {
                assert(keyed(lefts[k].aabb) && keyed(lefts[a].aabb));
                lemma_rank_on(lefts[a].aabb, rights[b].aabb, axis);
                lemma_rank_on(lefts[a].aabb, lefts[k].aabb, axis);
                lemma_rank_on(lefts[k].aabb, rights[b].aabb, axis);
            }
        }
        assert forall|with: Option<AABB>| keyed(with) implies #[trigger] class_of(
            next,
            with,
            axis,
        ) == class_of(lefts.take(a), with, axis) + class_of(rights.take(b + 1), with, axis) by {
            lemma_class_push(out, entry, with, axis);
            lemma_class_push(rights.take(b), entry, with, axis);
            let l = class_of(lefts.take(a), with, axis);
            let r = class_of(rights.take(b), with, axis);
            assert(class_of(out, with, axis) == l + r);
            assert((l + r).push(entry) =~= l + r.push(entry));
        }
    }
}

/// The step of a merge that takes the next entry of the left run: it is
/// taken where the right run is used up, or its next entry is not to stand
/// before.
pub proof fn lemma_take_left<H>(
    lefts: Seq<Entry<H>>,
    rights: Seq<Entry<H>>,
    a: int,
    b: int,
    out: Seq<Entry<H>>,
    axis: u32,
)
    requires
        0 <= a < lefts.len(),
        0 <= b <= rights.len(),
        out.to_multiset() == lefts.take(a).to_multiset().add(rights.take(b).to_multiset()),
        shapes_of(out).to_multiset() == shapes_of(lefts.take(a)).to_multiset().add(
            shapes_of(rights.take(b)).to_multiset(),
        ),
        mergeable(lefts, rights, axis) ==> merged_so_far(lefts, rights, a, b, out, axis),
        b == rights.len() || !stands_after(lefts[a].aabb, rights[b].aabb, axis),
    ensures
        out.push(lefts[a]).to_multiset() == lefts.take(a + 1).to_multiset().add(
            rights.take(b).to_multiset(),
        ),
        shapes_of(out.push(lefts[a])).to_multiset() == shapes_of(
            lefts.take(a + 1),
        ).to_multiset().add(shapes_of(rights.take(b)).to_multiset()),
        mergeable(lefts, rights, axis) ==> merged_so_far(
            lefts,
            rights,
            a + 1,
            b,
            out.push(lefts[a]),
            axis,
        ),
{
    let entry = lefts[a];
    let next = out.push(entry);
    lemma_take_one_more(lefts, a);
    to_multiset_build(out, entry);
    to_multiset_build(shapes_of(out), entry.shape);
    assert(shapes_of(next) =~= shapes_of(out).push(entry.shape));
    assert(next.to_multiset() =~= lefts.take(a + 1).to_multiset().add(
        rights.take(b).to_multiset(),
    ));
    assert(shapes_of(next).to_multiset() =~= shapes_of(lefts.take(a + 1)).to_multiset().add(
        shapes_of(rights.take(b)).to_multiset(),
    ));
    if mergeable(lefts, rights, axis) {
        assert(keyed(lefts[a].aabb));
        assert forall|i: int| 0 <= i < next.len() implies keyed(#[trigger] next[i].aabb) by {
            if i < out.len() {
                assert(next[i] == out[i]);
            }
        }
        assert forall|i: int, j: int| 0 <= i < j < next.len() implies !stands_after(
            #[trigger] next[i].aabb,
            #[trigger] next[j].aabb,
            axis,
        ) by {
            assert(next[i] == out[i]);
            if j < out.len() {
                assert(next[j] == out[j]);
            } else {
                assert(!stands_after(out[i].aabb, lefts[a].aabb, axis));
            }
        }
        assert forall|i: int, k: int|
            0 <= i < next.len() && a + 1 <= k < lefts.len() implies !stands_after(
            #[trigger] next[i].aabb,
            #[trigger] lefts[k].aabb,
            axis,
        ) by {
            if i < out.len() {
                assert(next[i] == out[i]);
            }
        }
        assert forall|i: int, k: int|
            0 <= i < next.len() && b <= k < rights.len() implies !stands_after(
            #[trigger] next[i].aabb,
            #[trigger] rights[k].aabb,
            axis,
        ) by {
            if i < out.len() {
                assert(next[i] == out[i]);
            } else {
                assert(keyed(rights[k].aabb) && keyed(rights[b].aabb));
                lemma_rank_on(lefts[a].aabb, rights[b].aabb, axis);
                lemma_rank_on(rights[b].aabb, rights[k].aabb, axis);
                lemma_rank_on(lefts[a].aabb, rights[k].aabb, axis);
            }
        }
        assert forall|with: Option<AABB>| keyed(with) implies #[trigger] class_of(
            next,
            with,
            axis,
        ) == class_of(lefts.take(a + 1), with, axis) + class_of(rights.take(b), with, axis) by {
            lemma_class_push(out, entry, with, axis);
            lemma_class_push(lefts.take(a), entry, with, axis);
            let l = class_of(lefts.take(a), with, axis);
            let r = class_of(rights.take(b), with, axis);
            assert(class_of(out, with, axis) == l + r);
            if tied(entry.aabb, with, axis) {
                let taken = rights.take(b);
                assert forall|j: int| 0 <= j < taken.len() implies !tied(
                    #[trigger] taken[j].aabb,
                    with,
                    axis,
                ) by {
                    assert(taken[j] == rights[j]);
                    assert(keyed(rights[j].aabb));
                    assert(stands_after(lefts[a].aabb, rights[j].aabb, axis));
                    lemma_rank_on(lefts[a].aabb, rights[j].aabb, axis);
                    lemma_rank_on(lefts[a].aabb, with, axis);
                    lemma_rank_on(rights[j].aabb, with, axis);
                }
                lemma_class_empty(taken, with, axis);
                assert(r =~= Seq::<Entry<H>>::empty());
                assert((l + r).push(entry) =~= l.push(entry) + r);
            }
        }
    }
}

/// Sorts the entries by the lower corner of their boxes on an axis. The
/// sort is stable: entries that tie keep their order.
pub fn sort_on_axis<H>(entries: Vec<Entry<H>>, axis: u32) -> (sorted: Vec<Entry<H>>)
    ensures
        sorted@.len() == entries@.len(),
        sorted@.to_multiset() == entries@.to_multiset(),
        shapes_of(sorted@).to_multiset() == shapes_of(entries@).to_multiset(),
        all_keyed(entries@) ==> all_keyed(sorted@) && sorted_on(sorted@, axis) && keeps_ties(
            entries@,
            sorted@,
            axis,
        ),
    decreases entries@.len(),
{
    let ghost given = entries@;
    let mut entries = entries;
    let count: usize = entries.len();
    if count < 2 {
        return entries;
    }
    let middle: usize = count / 2;
    let right = entries.split_off(middle);
    let ghost left_half = entries@;
    let ghost right_half = right@;
    let left_sorted = sort_on_axis(entries, axis);
    let right_sorted = sort_on_axis(right, axis);
    let ghost ls = left_sorted@;
    let ghost rs = right_sorted@;
    let sorted = merge(left_sorted, right_sorted, axis);
    proof {
        assert(given =~= left_half + right_half);
        assert(shapes_of(given) =~= shapes_of(left_half) + shapes_of(right_half));
        lemma_multiset_commutative(left_half, right_half);
        lemma_multiset_commutative(shapes_of(left_half), shapes_of(right_half));
        if all_keyed(given) {
            assert forall|i: int| 0 <= i < left_half.len() implies keyed(
                #[trigger] left_half[i].aabb,
            ) by {
                assert(left_half[i] == given[i]);
            }
            assert forall|i: int| 0 <= i < right_half.len() implies keyed(
                #[trigger] right_half[i].aabb,
            ) by {
                assert(right_half[i] == given[middle + i]);
            }
            assert forall|with: Option<AABB>| keyed(with) implies #[trigger] class_of(
                sorted@,
                with,
                axis,
            ) == class_of(given, with, axis) by {
                lemma_class_add(ls, rs, with, axis);
                lemma_class_add(left_half, right_half, with, axis);
                assert(class_of(ls + rs, with, axis) == class_of(sorted@, with, axis));
            }
        }
    }
    sorted
}

} // verus!
