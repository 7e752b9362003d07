//! Reading order: top to bottom over the page, left to right within each line band.
//!
//! An order is a sequence of indices into the page's objects.

use crate::object::{eligible_indices, eligible_objects, lemma_eligible_indices, ContentObject};
use vstd::prelude::*;
use vstd::seq_lib::{group_to_multiset_ensures, lemma_multiset_commutative};

verus! {

/// The coordinate by which a run of objects is sorted, and the direction.
#[derive(Clone, Copy, Debug)]
pub enum Axis {
    /// By `top`, larger first: from the head of the page down.
    TopDescending,
    /// By `left`, smaller first: in reading direction.
    LeftAscending,
}

/// Whether the object at `x` must stand before the one at `y` along `axis`. Where either has no
/// bounding box the two compare as equal, and neither must stand before the other.
pub open spec fn sorts_before<I>(
    objects: Seq<ContentObject<I>>,
    axis: Axis,
    x: usize,
    y: usize,
) -> bool {
    match (objects[x as int].spec_bounds(), objects[y as int].spec_bounds()) {
        (Some(a), Some(b)) => match axis {
            Axis::TopDescending => a.top > b.top,
            Axis::LeftAscending => a.left < b.left,
        },
        _ => false,
    }
}

/// Where `x` goes into `sorted`: behind the last entry that it need not stand before.
pub open spec fn insert_point<I>(
    objects: Seq<ContentObject<I>>,
    axis: Axis,
    sorted: Seq<usize>,
    x: usize,
) -> int
    decreases sorted.len(),
{
    if sorted.len() > 0 && sorts_before(objects, axis, x, sorted.last()) {
        insert_point(objects, axis, sorted.drop_last(), x)
    } else {
        sorted.len() as int
    }
}

/// `items` in stable order along `axis`: each item in turn goes behind the last one that it
/// need not stand before, so that items which compare as equal keep their order.
pub open spec fn stable_sorted<I>(
    objects: Seq<ContentObject<I>>,
    axis: Axis,
    items: Seq<usize>,
) -> Seq<usize>
    decreases items.len(),
{
    if items.len() == 0 {
        items
    } else {
        let sorted = stable_sorted(objects, axis, items.drop_last());
        sorted.insert(insert_point(objects, axis, sorted, items.last()), items.last())
    }
}

/// Whether the entry of `order` at `k` has a bounding box.
pub open spec fn boxed_at<I>(objects: Seq<ContentObject<I>>, order: Seq<usize>, k: int) -> bool {
    objects[order[k] as int].spec_bounds() is Some
}

/// Whether the entries of `order` from `lo` up to `hi` (not included) all have a bounding box.
pub open spec fn all_boxed<I>(
    objects: Seq<ContentObject<I>>,
    order: Seq<usize>,
    lo: int,
    hi: int,
) -> bool {
    forall|k: int| lo <= k < hi ==> #[trigger] boxed_at(objects, order, k)
}

/// Whether the entries of `order` at `i` and at the later `j` stand as `axis` asks: where
/// nothing but boxed objects stand from the one to the other, the later one need not stand
/// before the earlier one.
pub open spec fn in_order_at<I>(
    objects: Seq<ContentObject<I>>,
    axis: Axis,
    order: Seq<usize>,
    i: int,
    j: int,
) -> bool {
    all_boxed(objects, order, i, j + 1) ==> !sorts_before(objects, axis, order[j], order[i])
}

/// Whether `order` is sorted along `axis` wherever bounding boxes allow it.
pub open spec fn ordered_along<I>(
    objects: Seq<ContentObject<I>>,
    axis: Axis,
    order: Seq<usize>,
) -> bool {
    forall|i: int, j: int|
        0 <= i < j < order.len() ==> #[trigger] in_order_at(objects, axis, order, i, j)
}

/// The insert point lies within `sorted`, `x` must stand before every entry from there on, and
/// need not stand before the entry just ahead of it.
pub proof fn lemma_insert_point<I>(
    objects: Seq<ContentObject<I>>,
    axis: Axis,
    sorted: Seq<usize>,
    x: usize,
)
    ensures
        0 <= insert_point(objects, axis, sorted, x) <= sorted.len(),
        forall|k: int|
            insert_point(objects, axis, sorted, x) <= k < sorted.len() ==> sorts_before(
                objects,
                axis,
                x,
                #[trigger] sorted[k],
            ),
        insert_point(objects, axis, sorted, x) > 0 ==> !sorts_before(
            objects,
            axis,
            x,
            sorted[insert_point(objects, axis, sorted, x) - 1],
        ),
    decreases sorted.len(),
{
    if sorted.len() > 0 && sorts_before(objects, axis, x, sorted.last()) {
        let rest = sorted.drop_last();
        lemma_insert_point(objects, axis, rest, x);
        assert forall|k: int|
            insert_point(objects, axis, sorted, x) <= k < sorted.len() implies sorts_before(
            objects,
            axis,
            x,
            #[trigger] sorted[k],
        ) by {
            if k < rest.len() {
                assert(rest[k] == sorted[k]);
            }
        }
    }
}

/// A position with the three properties of the insert point is the insert point.
pub proof fn lemma_insert_point_is<I>(
    objects: Seq<ContentObject<I>>,
    axis: Axis,
    sorted: Seq<usize>,
    x: usize,
    pos: int,
)
    requires
        0 <= pos <= sorted.len(),
        forall|k: int| pos <= k < sorted.len() ==> sorts_before(objects, axis, x, #[trigger] sorted[k]),
        pos > 0 ==> !sorts_before(objects, axis, x, sorted[pos - 1]),
    ensures
        insert_point(objects, axis, sorted, x) == pos,
    decreases sorted.len(),
{
    if pos < sorted.len() {
        assert(sorts_before(objects, axis, x, sorted[sorted.len() - 1]));
        lemma_insert_point_is(objects, axis, sorted.drop_last(), x, pos);
    }
}

/// Putting `x` at its insert point keeps a sorted sequence sorted.
proof fn lemma_insert_keeps_order<I>(
    objects: Seq<ContentObject<I>>,
    axis: Axis,
    sorted: Seq<usize>,
    x: usize,
)
    requires
        ordered_along(objects, axis, sorted),
    ensures
        ordered_along(
            objects,
            axis,
            sorted.insert(insert_point(objects, axis, sorted, x), x),
        ),
{
    let p = insert_point(objects, axis, sorted, x);
    let r = sorted.insert(p, x);
    lemma_insert_point(objects, axis, sorted, x);
    sorted.insert_ensures(p, x);
    assert forall|i: int, j: int| 0 <= i < j < r.len() implies #[trigger] in_order_at(
        objects,
        axis,
        r,
        i,
        j,
    ) by {
        if all_boxed(objects, r, i, j + 1) {
            assert(boxed_at(objects, r, i));
            assert(boxed_at(objects, r, j));
            if j == p {
                // the entry just ahead of `x` holds `x` back, and no earlier one lets that
                // entry pass
                assert(boxed_at(objects, r, p - 1));
                assert(r[p - 1] == sorted[p - 1]);
                assert(r[i] == sorted[i]);
                if i < p - 1 {
                    assert forall|k: int| i <= k < p implies #[trigger] boxed_at(
                        objects,
                        sorted,
                        k,
                    ) by {
                        assert(boxed_at(objects, r, k));
                        assert(r[k] == sorted[k]);
                    }
                    assert(in_order_at(objects, axis, sorted, i, p - 1));
                }
            } else if i == p {
                assert(r[j] == sorted[j - 1]);
                assert(sorts_before(objects, axis, x, sorted[j - 1]));
            } else {
                let i0 = if i < p {
                    i
                } else {
                    i - 1
                };
                let j0 = if j < p {
                    j
                } else {
                    j - 1
                };
                assert(r[i] == sorted[i0]);
                assert(r[j] == sorted[j0]);
                assert forall|k: int| i0 <= k < j0 + 1 implies #[trigger] boxed_at(
                    objects,
                    sorted,
                    k,
                ) by {
                    if k < p {
                        assert(boxed_at(objects, r, k));
                        assert(r[k] == sorted[k]);
                    } else {
                        assert(boxed_at(objects, r, k + 1));
                        assert(r[k + 1] == sorted[k]);
                    }
                }
                assert(in_order_at(objects, axis, sorted, i0, j0));
            }
        }
    }
}

/// What a stable sort gives: the same items, each as often as before, sorted along `axis`
/// wherever bounding boxes allow it.
pub proof fn lemma_stable_sorted<I>(objects: Seq<ContentObject<I>>, axis: Axis, items: Seq<usize>)
    ensures
        stable_sorted(objects, axis, items).len() == items.len(),
        stable_sorted(objects, axis, items).to_multiset() == items.to_multiset(),
        forall|k: int|
            0 <= k < items.len() ==> items.contains(#[trigger] stable_sorted(objects, axis, items)[k]),
        ordered_along(objects, axis, stable_sorted(objects, axis, items)),
    decreases items.len(),
{
    broadcast use group_to_multiset_ensures;

    if items.len() > 0 {
        let rest = items.drop_last();
        let x = items.last();
        lemma_stable_sorted(objects, axis, rest);
        let sorted = stable_sorted(objects, axis, rest);
        let p = insert_point(objects, axis, sorted, x);
        lemma_insert_point(objects, axis, sorted, x);
        lemma_insert_keeps_order(objects, axis, sorted, x);
        sorted.insert_ensures(p, x);
        let r = sorted.insert(p, x);
        assert(items =~= rest.push(x));
        assert(r.to_multiset() == sorted.to_multiset().insert(x));
        assert(items.to_multiset() == rest.to_multiset().insert(x));
        assert forall|k: int| 0 <= k < items.len() implies items.contains(#[trigger] r[k]) by {
            if k == p {
                assert(items[items.len() - 1] == x);
            } else {
                let k0 = if k < p { k } else { k - 1 };
                assert(r[k] == sorted[k0]);
                assert(rest.contains(sorted[k0]));
                let m = choose|m: int| 0 <= m < rest.len() && rest[m] == sorted[k0];
                assert(items[m] == sorted[k0]);
            }
        }
    }
}

/// A stable sort forces no reordering: of two items, the later one does not pass the earlier
/// one unless it must stand before it. So items that compare as equal keep their order, and
/// nothing passes an item without a bounding box.
pub proof fn lemma_stable_sorted_keeps_order<I>(
    objects: Seq<ContentObject<I>>,
    axis: Axis,
    items: Seq<usize>,
    i: int,
    j: int,
)
    requires
        0 <= i < j < items.len(),
        !sorts_before(objects, axis, items[j], items[i]),
    ensures
        exists|a: int, b: int|
            0 <= a < b < items.len() && #[trigger] stable_sorted(objects, axis, items)[a] == items[i]
                && #[trigger] stable_sorted(objects, axis, items)[b] == items[j],
    decreases items.len(),
{
    broadcast use group_to_multiset_ensures;

    let rest = items.drop_last();
    let x = items.last();
    let sorted = stable_sorted(objects, axis, rest);
    let p = insert_point(objects, axis, sorted, x);
    let r = stable_sorted(objects, axis, items);
    lemma_stable_sorted(objects, axis, rest);
    lemma_insert_point(objects, axis, sorted, x);
    sorted.insert_ensures(p, x);
    if j < items.len() - 1 {
        assert(rest[i] == items[i] && rest[j] == items[j]);
        lemma_stable_sorted_keeps_order(objects, axis, rest, i, j);
        let (a0, b0) = choose|a: int, b: int|
            0 <= a < b < rest.len() && #[trigger] sorted[a] == rest[i] && #[trigger] sorted[b]
                == rest[j];
        let a = if a0 < p {
            a0
        } else {
            a0 + 1
        };
        let b = if b0 < p {
            b0
        } else {
            b0 + 1
        };
        assert(r[a] == items[i] && r[b] == items[j]);
    } else {
        // the earlier item stands somewhere in the sorted rest, and ahead of the insert point:
        // from there on stand only items that the last one must stand before
        assert(rest[i] == items[i]);
        assert(rest.contains(rest[i]));
        assert(sorted.to_multiset().count(items[i]) > 0);
        assert(sorted.contains(items[i]));
        let q = choose|q: int| 0 <= q < sorted.len() && sorted[q] == items[i];
        if q >= p {
            assert(sorts_before(objects, axis, x, sorted[q]));
        }
        assert(r[q] == items[i] && r[p] == items[j]);
    }
}

/// Whether the object at `x` must stand before the one at `y` along `axis`.
fn goes_before<I>(objects: &Vec<ContentObject<I>>, axis: Axis, x: usize, y: usize) -> (r: bool)
    requires
        x < objects.len(),
        y < objects.len(),
    ensures
        r == sorts_before(objects@, axis, x, y),
{
    match (objects[x].bounds(), objects[y].bounds()) {
        (Some(a), Some(b)) => match axis {
            Axis::TopDescending => a.top > b.top,
            Axis::LeftAscending => a.left < b.left,
        },
        _ => false,
    }
}

/// The entries of `items` from `lo` up to `hi` (not included), in stable order along `axis`.
pub fn stable_sort_by<I>(
    objects: &Vec<ContentObject<I>>,
    items: &Vec<usize>,
    lo: usize,
    hi: usize,
    axis: Axis,
) -> (sorted: Vec<usize>)
    requires
        lo <= hi <= items.len(),
        forall|k: int| lo <= k < hi ==> (#[trigger] items[k]) < objects.len(),
    ensures
        sorted@ == stable_sorted(objects@, axis, items@.subrange(lo as int, hi as int)),
        sorted@.len() == hi - lo,
        sorted@.to_multiset() == items@.subrange(lo as int, hi as int).to_multiset(),
        ordered_along(objects@, axis, sorted@),
        forall|k: int| 0 <= k < sorted@.len() ==> (#[trigger] sorted[k]) < objects.len(),
{
    proof {
        lemma_stable_sorted(objects@, axis, items@.subrange(lo as int, hi as int));
    }
    let mut sorted: Vec<usize> = Vec::new();
    let mut i: usize = lo;
    assert(items@.subrange(lo as int, lo as int) =~= Seq::empty());
    while i < hi
        invariant
            lo <= i <= hi <= items.len(),
            forall|k: int| lo <= k < hi ==> (#[trigger] items[k]) < objects.len(),
            sorted@ == stable_sorted(objects@, axis, items@.subrange(lo as int, i as int)),
            sorted@.len() == i - lo,
            forall|k: int| 0 <= k < sorted@.len() ==> (#[trigger] sorted[k]) < objects.len(),
        decreases hi - i,
    {
        let x = items[i];
        let mut pos: usize = sorted.len();
        while pos > 0 && goes_before(objects, axis, x, sorted[pos - 1])
            invariant
                pos <= sorted.len(),
                x < objects.len(),
                forall|k: int| 0 <= k < sorted@.len() ==> (#[trigger] sorted[k]) < objects.len(),
                forall|k: int|
                    pos <= k < sorted@.len() ==> sorts_before(objects@, axis, x, #[trigger] sorted@[k]),
            decreases pos,
        {
            pos -= 1;
        }
        proof {
            let before = items@.subrange(lo as int, i as int);
            let now = items@.subrange(lo as int, i + 1);
            assert(now.drop_last() =~= before);
            assert(now.last() == x);
            lemma_insert_point_is(objects@, axis, sorted@, x, pos as int);
            sorted@.insert_ensures(pos as int, x);
        }
        sorted.insert(pos, x);
        i += 1;
    }
    sorted
}

/// Sorts the candidates from the head of the page down: larger `top` first. Candidates that
/// compare as equal keep their order, and a candidate without a bounding box compares as equal
/// to every other.
pub fn sort_by_top<I>(objects: &Vec<ContentObject<I>>, candidates: &Vec<usize>) -> (order: Vec<
    usize,
>)
    requires
        forall|k: int| 0 <= k < candidates@.len() ==> (#[trigger] candidates[k]) < objects.len(),
    ensures
        order@ == stable_sorted(objects@, Axis::TopDescending, candidates@),
        order@.len() == candidates@.len(),
        order@.to_multiset() == candidates@.to_multiset(),
        ordered_along(objects@, Axis::TopDescending, order@),
        forall|k: int| 0 <= k < order@.len() ==> (#[trigger] order[k]) < objects.len(),
{
    let order = stable_sort_by(objects, candidates, 0, candidates.len(), Axis::TopDescending);
    proof {
        assert(candidates@.subrange(0, candidates@.len() as int) =~= candidates@);
        lemma_stable_sorted(objects@, Axis::TopDescending, candidates@);
    }
    order
}

/// A line band: a run of the order sorted by `top`, from `start` to `end` (both included),
/// whose objects lie on one visual line. `top` is the `top` of the run's first object, by
/// which the others were judged.
#[derive(Clone, Copy, Debug, PartialEq, Eq)]
pub struct LineGroup {
    pub top: i64,
    pub start: usize,
    pub end: usize,
}

/// Whether an object at `top` lies on the line whose first object is at `reference`: the two
/// are equal or differ by less than `tolerance`.
pub open spec fn same_line(top: int, reference: int, tolerance: int) -> bool {
    top == reference || (top - reference < tolerance && reference - top < tolerance)
}

/// The first position from `from` on at which `order` holds an object without a bounding box,
/// and the length of `order` where there is none.
pub open spec fn leading_boxed<I>(objects: Seq<ContentObject<I>>, order: Seq<usize>, from: int) -> int
    decreases order.len() - from,
{
    if 0 <= from < order.len() && boxed_at(objects, order, from) {
        leading_boxed(objects, order, from + 1)
    } else {
        from
    }
}

/// The line bands over the first `n` entries of `order`: an entry extends the last band where
/// its `top` is on that band's line, and starts a band of its own where it is not.
pub open spec fn clustered<I>(
    objects: Seq<ContentObject<I>>,
    order: Seq<usize>,
    tolerance: int,
    n: int,
) -> Seq<LineGroup>
    decreases n,
{
    if n <= 0 {
        Seq::empty()
    } else {
        let groups = clustered(objects, order, tolerance, n - 1);
        let top = objects[order[n - 1] as int].spec_top();
        if groups.len() > 0 && same_line(top as int, groups.last().top as int, tolerance) {
            groups.drop_last().push(
                LineGroup { top: groups.last().top, start: groups.last().start, end: (n - 1) as usize },
            )
        } else {
            groups.push(LineGroup { top, start: (n - 1) as usize, end: (n - 1) as usize })
        }
    }
}

/// The line bands of `order`. Clustering ends at the first object without a bounding box:
/// that object and all behind it belong to no band.
pub open spec fn line_groups<I>(
    objects: Seq<ContentObject<I>>,
    order: Seq<usize>,
    tolerance: int,
) -> Seq<LineGroup> {
    clustered(objects, order, tolerance, leading_boxed(objects, order, 0))
}

/// Whether `groups` cut the first `n` positions into runs that follow each other without gap.
pub open spec fn groups_partition(groups: Seq<LineGroup>, n: int) -> bool {
    &&& (groups.len() == 0) == (n == 0)
    &&& forall|k: int| 0 <= k < groups.len() ==> (#[trigger] groups[k]).start <= groups[k].end < n
    &&& groups.len() > 0 ==> groups[0].start == 0 && groups.last().end == n - 1
    &&& forall|k: int| 0 <= k < groups.len() - 1 ==> (#[trigger] groups[k]).end + 1 == groups[k + 1].start
}

/// Whether each of `groups` is a line band of `order`: its `top` is that of its first object,
/// every object in it is on that line, and the first object of the next band is not.
pub open spec fn groups_are_bands<I>(
    objects: Seq<ContentObject<I>>,
    order: Seq<usize>,
    tolerance: int,
    groups: Seq<LineGroup>,
) -> bool {
    &&& forall|k: int|
        0 <= k < groups.len() ==> (#[trigger] groups[k]).top == objects[order[groups[k].start as int] as int].spec_top()
    &&& forall|k: int, m: int|
        0 <= k < groups.len() && groups[k].start <= m <= groups[k].end ==> same_line(
            objects[(#[trigger] order[m]) as int].spec_top() as int,
            (#[trigger] groups[k]).top as int,
            tolerance,
        )
    &&& forall|k: int|
        0 <= k < groups.len() - 1 ==> !same_line(
            objects[order[groups[k + 1].start as int] as int].spec_top() as int,
            (#[trigger] groups[k]).top as int,
            tolerance,
        )
}

/// From `from` up to `leading_boxed` every entry has a bounding box, and the entry there,
/// if there is one, has none.
pub proof fn lemma_leading_boxed<I>(objects: Seq<ContentObject<I>>, order: Seq<usize>, from: int)
    requires
        0 <= from <= order.len(),
    ensures
        from <= leading_boxed(objects, order, from) <= order.len(),
        all_boxed(objects, order, from, leading_boxed(objects, order, from)),
        leading_boxed(objects, order, from) < order.len() ==> !boxed_at(
            objects,
            order,
            leading_boxed(objects, order, from),
        ),
    decreases order.len() - from,
{
    if from < order.len() && boxed_at(objects, order, from) {
        lemma_leading_boxed(objects, order, from + 1);
    }
}

/// A position up to which every entry has a bounding box, and at which the entry has none or
/// `order` ends, is `leading_boxed`.
pub proof fn lemma_leading_boxed_is<I>(
    objects: Seq<ContentObject<I>>,
    order: Seq<usize>,
    from: int,
    stop: int,
)
    requires
        0 <= from <= stop <= order.len(),
        all_boxed(objects, order, from, stop),
        stop < order.len() ==> !boxed_at(objects, order, stop),
    ensures
        leading_boxed(objects, order, from) == stop,
    decreases stop - from,
{
    if from < stop {
        assert(boxed_at(objects, order, from));
        lemma_leading_boxed_is(objects, order, from + 1, stop);
    }
}

/// The bands over the first `n` entries cut them into runs without gap, and each is a line
/// band.
pub proof fn lemma_clustered<I>(
    objects: Seq<ContentObject<I>>,
    order: Seq<usize>,
    tolerance: int,
    n: int,
)
    requires
        0 <= n <= order.len() <= usize::MAX,
    ensures
        groups_partition(clustered(objects, order, tolerance, n), n),
        groups_are_bands(objects, order, tolerance, clustered(objects, order, tolerance, n)),
    decreases n,
{
    if n > 0 {
        lemma_clustered(objects, order, tolerance, n - 1);
        let prev = clustered(objects, order, tolerance, n - 1);
        let cur = clustered(objects, order, tolerance, n);
        let top = objects[order[n - 1] as int].spec_top();
        if prev.len() > 0 && same_line(top as int, prev.last().top as int, tolerance) {
            let last = prev.len() - 1;
            assert(cur.len() == prev.len());
            assert forall|k: int| 0 <= k < cur.len() implies (#[trigger] cur[k]).start <= cur[k].end
                < n by {
                if k < last {
                    assert(cur[k] == prev[k]);
                }
            }
            assert forall|k: int| 0 <= k < cur.len() - 1 implies (#[trigger] cur[k]).end + 1
                == cur[k + 1].start by {
                assert(cur[k] == prev[k]);
                if k + 1 < last {
                    assert(cur[k + 1] == prev[k + 1]);
                }
            }
            assert forall|k: int| 0 <= k < cur.len() implies (#[trigger] cur[k]).top
                == objects[order[cur[k].start as int] as int].spec_top() by {
                if k < last {
                    assert(cur[k] == prev[k]);
                } else {
                    assert(prev[last].top == objects[order[prev[last].start as int] as int].spec_top());
                }
            }
            assert forall|k: int, m: int|
                0 <= k < cur.len() && cur[k].start <= m <= cur[k].end implies same_line(
                objects[(#[trigger] order[m]) as int].spec_top() as int,
                (#[trigger] cur[k]).top as int,
                tolerance,
            ) by {
                if k < last {
                    assert(cur[k] == prev[k]);
                } else if m < n - 1 {
                    assert(prev[last].start <= m <= prev[last].end);
                }
            }
            assert forall|k: int| 0 <= k < cur.len() - 1 implies !same_line(
                objects[order[cur[k + 1].start as int] as int].spec_top() as int,
                (#[trigger] cur[k]).top as int,
                tolerance,
            ) by {
                assert(cur[k] == prev[k]);
                assert(cur[k + 1].start == prev[k + 1].start);
            }
        } else {
            assert(cur.len() == prev.len() + 1);
            assert forall|k: int| 0 <= k < cur.len() implies (#[trigger] cur[k]).start <= cur[k].end
                < n by {
                if k < prev.len() {
                    assert(cur[k] == prev[k]);
                }
            }
            assert forall|k: int| 0 <= k < cur.len() - 1 implies (#[trigger] cur[k]).end + 1
                == cur[k + 1].start by {
                assert(cur[k] == prev[k]);
                if k + 1 < prev.len() {
                    assert(cur[k + 1] == prev[k + 1]);
                }
            }
            assert forall|k: int| 0 <= k < cur.len() implies (#[trigger] cur[k]).top
                == objects[order[cur[k].start as int] as int].spec_top() by {
                if k < prev.len() {
                    assert(cur[k] == prev[k]);
                }
            }
            assert forall|k: int, m: int|
                0 <= k < cur.len() && cur[k].start <= m <= cur[k].end implies same_line(
                objects[(#[trigger] order[m]) as int].spec_top() as int,
                (#[trigger] cur[k]).top as int,
                tolerance,
            ) by {
                if k < prev.len() {
                    assert(cur[k] == prev[k]);
                }
            }
            assert forall|k: int| 0 <= k < cur.len() - 1 implies !same_line(
                objects[order[cur[k + 1].start as int] as int].spec_top() as int,
                (#[trigger] cur[k]).top as int,
                tolerance,
            ) by {
                assert(cur[k] == prev[k]);
                if k + 1 < prev.len() {
                    assert(cur[k + 1] == prev[k + 1]);
                }
            }
        }
    }
}

/// Whether an object at `top` lies on the line whose first object is at `reference`.
pub fn is_same_line(top: i64, reference: i64, tolerance: u64) -> (r: bool)
    ensures
        r == same_line(top as int, reference as int, tolerance as int),
{
    let gap: i128 = top as i128 - reference as i128;
    top == reference || (gap < tolerance as i128 && -gap < tolerance as i128)
}

/// Groups the objects of an order sorted by `top` into line bands. An object joins the band
/// before it where its `top` differs from the `top` of that band's first object by less than
/// `tolerance`, and starts a new band where it does not. The scan ends at the first object
/// without a bounding box.
pub fn cluster_lines<I>(objects: &Vec<ContentObject<I>>, order: &Vec<usize>, tolerance: u64) -> (groups:
    Vec<LineGroup>)
    requires
        forall|k: int| 0 <= k < order@.len() ==> (#[trigger] order[k]) < objects.len(),
    ensures
        groups@ == line_groups(objects@, order@, tolerance as int),
        groups_partition(groups@, leading_boxed(objects@, order@, 0)),
        groups_are_bands(objects@, order@, tolerance as int, groups@),
        forall|k: int| 0 <= k < groups@.len() ==> (#[trigger] groups[k]).start <= groups[k].end < order.len(),
{
    let mut groups: Vec<LineGroup> = Vec::new();
    let mut i: usize = 0;
    while i < order.len()
        invariant
            i <= order.len(),
            forall|k: int| 0 <= k < order@.len() ==> (#[trigger] order[k]) < objects.len(),
            all_boxed(objects@, order@, 0, i as int),
            groups@ == clustered(objects@, order@, tolerance as int, i as int),
        decreases order.len() - i,
    {
        match objects[order[i]].bounds() {
            None => {
                proof {
                    lemma_leading_boxed_is(objects@, order@, 0, i as int);
                    lemma_clustered(objects@, order@, tolerance as int, i as int);
                }
                return groups;
            },
            Some(bounds) => {
                assert(boxed_at(objects@, order@, i as int));
                let count = groups.len();
                if count > 0 && is_same_line(bounds.top, groups[count - 1].top, tolerance) {
                    let last = groups[count - 1];
                    groups.pop();
                    groups.push(LineGroup { top: last.top, start: last.start, end: i });
                } else {
                    groups.push(LineGroup { top: bounds.top, start: i, end: i });
                }
            },
        }
        i += 1;
    }
    proof {
        lemma_leading_boxed_is(objects@, order@, 0, i as int);
        lemma_clustered(objects@, order@, tolerance as int, i as int);
    }
    groups
}

/// `order` with its entries from `lo` up to `hi` (not included) in stable order along `axis`.
pub open spec fn sorted_range<I>(
    objects: Seq<ContentObject<I>>,
    axis: Axis,
    order: Seq<usize>,
    lo: int,
    hi: int,
) -> Seq<usize> {
    order.subrange(0, lo) + stable_sorted(objects, axis, order.subrange(lo, hi)) + order.subrange(
        hi,
        order.len() as int,
    )
}

/// `order` with each of `groups`, one after the other, sorted from left to right.
pub open spec fn with_groups_sorted<I>(
    objects: Seq<ContentObject<I>>,
    order: Seq<usize>,
    groups: Seq<LineGroup>,
) -> Seq<usize>
    decreases groups.len(),
{
    if groups.len() == 0 {
        order
    } else {
        sorted_range(
            objects,
            Axis::LeftAscending,
            with_groups_sorted(objects, order, groups.drop_last()),
            groups.last().start as int,
            groups.last().end + 1,
        )
    }
}

/// The eligible objects of a page sorted from the head of the page down.
pub open spec fn top_order_of<I>(objects: Seq<ContentObject<I>>) -> Seq<usize> {
    stable_sorted(objects, Axis::TopDescending, eligible_indices(objects, objects.len() as int))
}

/// The line bands of a page.
pub open spec fn page_line_groups<I>(objects: Seq<ContentObject<I>>, tolerance: int) -> Seq<
    LineGroup,
> {
    line_groups(objects, top_order_of(objects), tolerance)
}

/// The reading order of a page: the eligible objects from the head of the page down, and from
/// left to right within each line band.
pub open spec fn reading_order_of<I>(objects: Seq<ContentObject<I>>, tolerance: int) -> Seq<usize> {
    with_groups_sorted(objects, top_order_of(objects), page_line_groups(objects, tolerance))
}

/// Sorting a range changes nothing outside it, and inside it gives the stable order of what
/// stood there.
pub proof fn lemma_sorted_range<I>(
    objects: Seq<ContentObject<I>>,
    axis: Axis,
    order: Seq<usize>,
    lo: int,
    hi: int,
)
    requires
        0 <= lo <= hi <= order.len(),
    ensures
        sorted_range(objects, axis, order, lo, hi).len() == order.len(),
        sorted_range(objects, axis, order, lo, hi).to_multiset() == order.to_multiset(),
        sorted_range(objects, axis, order, lo, hi).subrange(0, lo) == order.subrange(0, lo),
        sorted_range(objects, axis, order, lo, hi).subrange(lo, hi) == stable_sorted(
            objects,
            axis,
            order.subrange(lo, hi),
        ),
        sorted_range(objects, axis, order, lo, hi).subrange(hi, order.len() as int)
            == order.subrange(hi, order.len() as int),
        forall|k: int|
            0 <= k < order.len() ==> order.contains(
                #[trigger] sorted_range(objects, axis, order, lo, hi)[k],
            ),
{
    let head = order.subrange(0, lo);
    let mid = order.subrange(lo, hi);
    let tail = order.subrange(hi, order.len() as int);
    let sorted = stable_sorted(objects, axis, mid);
    let r = sorted_range(objects, axis, order, lo, hi);
    lemma_stable_sorted(objects, axis, mid);
    lemma_multiset_commutative(head, sorted);
    lemma_multiset_commutative(head + sorted, tail);
    lemma_multiset_commutative(head, mid);
    lemma_multiset_commutative(head + mid, tail);
    assert(head + mid + tail =~= order);
    assert(r.subrange(0, lo) =~= head);
    assert(r.subrange(lo, hi) =~= sorted);
    assert(r.subrange(hi, order.len() as int) =~= tail);
    assert forall|k: int| 0 <= k < order.len() implies order.contains(#[trigger] r[k]) by {
        if k < lo {
            assert(r[k] == order[k]);
        } else if k < hi {
            assert(r[k] == sorted[k - lo]);
            assert(mid.contains(sorted[k - lo]));
            let m = choose|m: int| 0 <= m < mid.len() && mid[m] == sorted[k - lo];
            assert(order[m + lo] == r[k]);
        } else {
            assert(r[k] == order[k]);
        }
    }
}

/// Sorting groups that lie within `order` keeps its length and its entries.
pub proof fn lemma_with_groups_sorted<I>(
    objects: Seq<ContentObject<I>>,
    order: Seq<usize>,
    groups: Seq<LineGroup>,
)
    requires
        forall|k: int| 0 <= k < groups.len() ==> (#[trigger] groups[k]).start <= groups[k].end < order.len(),
    ensures
        with_groups_sorted(objects, order, groups).len() == order.len(),
        with_groups_sorted(objects, order, groups).to_multiset() == order.to_multiset(),
        forall|k: int|
            0 <= k < order.len() ==> order.contains(
                #[trigger] with_groups_sorted(objects, order, groups)[k],
            ),
    decreases groups.len(),
{
    if groups.len() > 0 {
        let rest = groups.drop_last();
        let g = groups.last();
        assert forall|k: int| 0 <= k < rest.len() implies (#[trigger] rest[k]).start <= rest[k].end
            < order.len() by {
            assert(rest[k] == groups[k]);
        }
        lemma_with_groups_sorted(objects, order, rest);
        let prev = with_groups_sorted(objects, order, rest);
        lemma_sorted_range(objects, Axis::LeftAscending, prev, g.start as int, g.end + 1);
        let r = with_groups_sorted(objects, order, groups);
        assert forall|k: int| 0 <= k < order.len() implies order.contains(#[trigger] r[k]) by {
            assert(prev.contains(r[k]));
            let m = choose|m: int| 0 <= m < prev.len() && prev[m] == r[k];
            assert(order.contains(prev[m]));
        }
    }
}

/// Where `groups` cut the first `n` positions of `order` into runs without gap, sorting them
/// gives, in each run, the stable order from left to right of what stood there, and leaves
/// what stands behind the runs as it was.
pub proof fn lemma_groups_sorted_in_place<I>(
    objects: Seq<ContentObject<I>>,
    order: Seq<usize>,
    groups: Seq<LineGroup>,
    n: int,
)
    requires
        groups_partition(groups, n),
        0 <= n <= order.len(),
    ensures
        with_groups_sorted(objects, order, groups).len() == order.len(),
        with_groups_sorted(objects, order, groups).subrange(n, order.len() as int)
            == order.subrange(n, order.len() as int),
        forall|k: int|
            0 <= k < groups.len() ==> with_groups_sorted(objects, order, groups).subrange(
                (#[trigger] groups[k]).start as int,
                groups[k].end + 1,
            ) == stable_sorted(
                objects,
                Axis::LeftAscending,
                order.subrange(groups[k].start as int, groups[k].end + 1),
            ),
    decreases groups.len(),
{
    if groups.len() == 0 {
    } else {
        let rest = groups.drop_last();
        let g = groups.last();
        let lo = g.start as int;
        let hi = g.end + 1;
        assert(groups[groups.len() - 1] == g);
        assert(hi == n);
        assert forall|k: int| 0 <= k < rest.len() implies (#[trigger] rest[k]).start <= rest[k].end
            < lo by {
            assert(rest[k] == groups[k]);
            if k < rest.len() - 1 {
                assert(rest[k + 1] == groups[k + 1]);
                assert(groups[k + 1].start <= groups[k + 1].end);
            }
            assert(groups[rest.len() - 1].end + 1 == groups[rest.len() as int].start);
            lemma_group_ends_ascend(groups, n, k, rest.len() - 1);
        }
        assert(groups_partition(rest, lo)) by {
            if rest.len() > 0 {
                assert(rest[0] == groups[0]);
                assert(rest.last() == groups[rest.len() - 1]);
                assert(groups[rest.len() - 1].end + 1 == groups[rest.len() as int].start);
            }
            assert forall|k: int| 0 <= k < rest.len() - 1 implies (#[trigger] rest[k]).end + 1
                == rest[k + 1].start by {
                assert(rest[k] == groups[k]);
                assert(rest[k + 1] == groups[k + 1]);
            }
        }
        lemma_groups_sorted_in_place(objects, order, rest, lo);
        let prev = with_groups_sorted(objects, order, rest);
        let r = with_groups_sorted(objects, order, groups);
        lemma_sorted_range(objects, Axis::LeftAscending, prev, lo, hi);
        assert(prev.subrange(lo, hi) =~= order.subrange(lo, hi)) by {
            assert forall|i: int| lo <= i < hi implies prev[i] == order[i] by {
                assert(prev.subrange(lo, order.len() as int)[i - lo] == order.subrange(
                    lo,
                    order.len() as int,
                )[i - lo]);
            }
        }
        assert(r.subrange(n, order.len() as int) =~= order.subrange(n, order.len() as int)) by {
            assert forall|i: int| n <= i < order.len() implies r[i] == order[i] by {
                assert(r.subrange(hi, order.len() as int)[i - hi] == prev.subrange(
                    hi,
                    order.len() as int,
                )[i - hi]);
                assert(prev.subrange(lo, order.len() as int)[i - lo] == order.subrange(
                    lo,
                    order.len() as int,
                )[i - lo]);
            }
        }
        assert forall|k: int| 0 <= k < groups.len() implies r.subrange(
            (#[trigger] groups[k]).start as int,
            groups[k].end + 1,
        ) == stable_sorted(
            objects,
            Axis::LeftAscending,
            order.subrange(groups[k].start as int, groups[k].end + 1),
        ) by {
            if k < rest.len() {
                assert(rest[k] == groups[k]);
                let a = groups[k].start as int;
                let b = groups[k].end + 1;
                assert(r.subrange(a, b) =~= prev.subrange(a, b)) by {
                    assert forall|i: int| a <= i < b implies r[i] == prev[i] by {
                        assert(r.subrange(0, lo)[i] == prev.subrange(0, lo)[i]);
                    }
                }
            }
        }
    }
}

/// Of two groups of a partition, the earlier one ends no later than the later one.
proof fn lemma_group_ends_ascend(groups: Seq<LineGroup>, n: int, j: int, k: int)
    requires
        groups_partition(groups, n),
        0 <= j <= k < groups.len(),
    ensures
        groups[j].end <= groups[k].end,
        j < k ==> groups[j].end < groups[k].start,
    decreases k - j,
{
    if j < k {
        lemma_group_ends_ascend(groups, n, j + 1, k);
        assert(groups[j].end + 1 == groups[j + 1].start);
        assert(groups[j + 1].start <= groups[j + 1].end);
    }
}

/// Sorts each group of `order` from left to right: smaller `left` first. Objects with equal
/// `left` keep their order, and what lies in no group stays where it is.
pub fn sort_groups_by_left<I>(
    objects: &Vec<ContentObject<I>>,
    order: &mut Vec<usize>,
    groups: &Vec<LineGroup>,
)
    requires
        forall|k: int| 0 <= k < old(order)@.len() ==> (#[trigger] old(order)[k]) < objects.len(),
        forall|k: int|
            0 <= k < groups@.len() ==> (#[trigger] groups[k]).start <= groups[k].end < old(
                order,
            ).len(),
    ensures
        final(order)@ == with_groups_sorted(objects@, old(order)@, groups@),
        final(order)@.len() == old(order)@.len(),
        final(order)@.to_multiset() == old(order)@.to_multiset(),
        forall|k: int| 0 <= k < final(order)@.len() ==> (#[trigger] final(order)[k]) < objects.len(),
{
    let ghost start_order = order@;
    let mut g: usize = 0;
    assert(groups@.take(0) =~= Seq::empty());
    while g < groups.len()
        invariant
            g <= groups.len(),
            order@.len() == start_order.len(),
            order@ == with_groups_sorted(objects@, start_order, groups@.take(g as int)),
            forall|k: int| 0 <= k < order@.len() ==> (#[trigger] order[k]) < objects.len(),
            forall|k: int|
                0 <= k < groups@.len() ==> (#[trigger] groups[k]).start <= groups[k].end
                    < start_order.len(),
        decreases groups.len() - g,
    {
        assert(groups[g as int].start <= groups[g as int].end < order.len());
        let lo = groups[g].start;
        let hi = groups[g].end + 1;
        let ghost before = order@;
        let sorted = stable_sort_by(objects, order, lo, hi, Axis::LeftAscending);
        let mut k: usize = 0;
        while k < sorted.len()
            invariant
                k <= sorted.len(),
                sorted@.len() == hi - lo,
                lo <= hi <= before.len(),
                order@.len() == before.len(),
                order@ == before.subrange(0, lo as int) + sorted@.subrange(0, k as int)
                    + before.subrange(lo + k, before.len() as int),
            decreases sorted.len() - k,
        {
            order.set(lo + k, sorted[k]);
            assert(order@ =~= before.subrange(0, lo as int) + sorted@.subrange(0, k + 1)
                + before.subrange(lo + k + 1, before.len() as int));
            k += 1;
        }
        proof {
            assert(sorted@.subrange(0, sorted@.len() as int) =~= sorted@);
            assert(order@ == sorted_range(
                objects@,
                Axis::LeftAscending,
                before,
                lo as int,
                hi as int,
            ));
            let now = groups@.take(g + 1);
            assert(now.drop_last() =~= groups@.take(g as int));
            assert(now.last() == groups[g as int]);
            lemma_sorted_range(objects@, Axis::LeftAscending, before, lo as int, hi as int);
            assert forall|m: int| 0 <= m < order@.len() implies (#[trigger] order[m])
                < objects.len() by {
                assert(before.contains(order@[m]));
            }
        }
        g += 1;
    }
    proof {
        assert(groups@.take(groups@.len() as int) =~= groups@);
        lemma_with_groups_sorted(objects@, start_order, groups@);
    }
}

/// The reading order of a page, as indices into `objects`: the eligible objects from the head
/// of the page down, and from left to right within each line band.
pub fn reading_order<I>(objects: &Vec<ContentObject<I>>, tolerance: u64) -> (order: Vec<usize>)
    ensures
        order@ == reading_order_of(objects@, tolerance as int),
        order@.to_multiset() == eligible_indices(objects@, objects@.len() as int).to_multiset(),
        order@.len() == eligible_indices(objects@, objects@.len() as int).len(),
        forall|k: int|
            0 <= k < order@.len() ==> (#[trigger] order[k]) < objects.len()
                && objects[order[k] as int].spec_is_eligible(),
{
    let candidates = eligible_objects(objects);
    proof {
        lemma_eligible_indices(objects@, objects@.len() as int);
    }
    let mut order = sort_by_top(objects, &candidates);
    let groups = cluster_lines(objects, &order, tolerance);
    let ghost by_top = order@;
    sort_groups_by_left(objects, &mut order, &groups);
    proof {
        lemma_stable_sorted(objects@, Axis::TopDescending, candidates@);
        lemma_with_groups_sorted(objects@, by_top, groups@);
        assert forall|k: int| 0 <= k < order@.len() implies (#[trigger] order[k]) < objects.len()
            && objects[order[k] as int].spec_is_eligible() by {
            assert(by_top.contains(order@[k]));
            let m = choose|m: int| 0 <= m < by_top.len() && by_top[m] == order@[k];
            assert(candidates@.contains(by_top[m]));
        }
    }
    order
}

/// The reading order holds the indices of the page's eligible objects, each once.
pub proof fn lemma_reading_order_permutes<I>(objects: Seq<ContentObject<I>>, tolerance: int)
    requires
        objects.len() <= usize::MAX,
    ensures
        reading_order_of(objects, tolerance).to_multiset() == eligible_indices(
            objects,
            objects.len() as int,
        ).to_multiset(),
        reading_order_of(objects, tolerance).len() == eligible_indices(
            objects,
            objects.len() as int,
        ).len(),
        reading_order_of(objects, tolerance).len() <= objects.len(),
{
    let candidates = eligible_indices(objects, objects.len() as int);
    lemma_eligible_indices(objects, objects.len() as int);
    lemma_stable_sorted(objects, Axis::TopDescending, candidates);
    let by_top = top_order_of(objects);
    let n = leading_boxed(objects, by_top, 0);
    lemma_leading_boxed(objects, by_top, 0);
    lemma_clustered(objects, by_top, tolerance, n);
    lemma_with_groups_sorted(objects, by_top, page_line_groups(objects, tolerance));
}

/// In the reading order, the positions of a line band hold that band's objects, sorted from
/// left to right. Each has a bounding box, and its `top` is on the band's line.
pub proof fn lemma_line_band_members<I>(
    objects: Seq<ContentObject<I>>,
    tolerance: int,
    g: int,
    k: int,
)
    requires
        objects.len() <= usize::MAX,
        0 <= g < page_line_groups(objects, tolerance).len(),
        page_line_groups(objects, tolerance)[g].start <= k <= page_line_groups(
            objects,
            tolerance,
        )[g].end,
    ensures
        k < reading_order_of(objects, tolerance).len(),
        reading_order_of(objects, tolerance).len() == top_order_of(objects).len(),
        reading_order_of(objects, tolerance).subrange(
            page_line_groups(objects, tolerance)[g].start as int,
            page_line_groups(objects, tolerance)[g].end + 1,
        ) == stable_sorted(
            objects,
            Axis::LeftAscending,
            top_order_of(objects).subrange(
                page_line_groups(objects, tolerance)[g].start as int,
                page_line_groups(objects, tolerance)[g].end + 1,
            ),
        ),
        objects[reading_order_of(objects, tolerance)[k] as int].spec_bounds() is Some,
        same_line(
            objects[reading_order_of(objects, tolerance)[k] as int].spec_top() as int,
            page_line_groups(objects, tolerance)[g].top as int,
            tolerance,
        ),
{
    let by_top = top_order_of(objects);
    let groups = page_line_groups(objects, tolerance);
    let order = reading_order_of(objects, tolerance);
    lemma_eligible_indices(objects, objects.len() as int);
    lemma_stable_sorted(
        objects,
        Axis::TopDescending,
        eligible_indices(objects, objects.len() as int),
    );
    let n = leading_boxed(objects, by_top, 0);
    lemma_leading_boxed(objects, by_top, 0);
    lemma_clustered(objects, by_top, tolerance, n);
    lemma_groups_sorted_in_place(objects, by_top, groups, n);
    let lo = groups[g].start as int;
    let hi = groups[g].end + 1;
    let band = by_top.subrange(lo, hi);
    let sorted = stable_sorted(objects, Axis::LeftAscending, band);
    lemma_stable_sorted(objects, Axis::LeftAscending, band);
    assert(order.subrange(lo, hi) == sorted);
    assert(order[k] == order.subrange(lo, hi)[k - lo]);
    // wherever the sort put the object, it stood in the band before
    assert(band.contains(sorted[k - lo]));
    let m = choose|m: int| 0 <= m < band.len() && band[m] == sorted[k - lo];
    assert(by_top[m + lo] == sorted[k - lo]);
    assert(boxed_at(objects, by_top, m + lo));
    assert(groups[g].start <= m + lo <= groups[g].end);
}

/// Within one line band the reading order runs from left to right: of two of its objects the
/// later one is not further left than the earlier one, whatever order the page listed them in.
pub proof fn lemma_line_band_left_to_right<I>(
    objects: Seq<ContentObject<I>>,
    tolerance: int,
    g: int,
    i: int,
    j: int,
)
    requires
        objects.len() <= usize::MAX,
        0 <= g < page_line_groups(objects, tolerance).len(),
        page_line_groups(objects, tolerance)[g].start <= i <= j <= page_line_groups(
            objects,
            tolerance,
        )[g].end,
    ensures
        j < reading_order_of(objects, tolerance).len(),
        objects[reading_order_of(objects, tolerance)[i] as int].spec_left()
            <= objects[reading_order_of(objects, tolerance)[j] as int].spec_left(),
{
    let groups = page_line_groups(objects, tolerance);
    let order = reading_order_of(objects, tolerance);
    let lo = groups[g].start as int;
    let hi = groups[g].end + 1;
    let sorted = order.subrange(lo, hi);
    lemma_line_band_members(objects, tolerance, g, i);
    lemma_line_band_members(objects, tolerance, g, j);
    lemma_line_band_members(objects, tolerance, g, groups[g].end as int);
    lemma_stable_sorted(objects, Axis::LeftAscending, top_order_of(objects).subrange(lo, hi));
    if i < j {
        assert forall|k: int| i - lo <= k < j - lo + 1 implies #[trigger] boxed_at(
            objects,
            sorted,
            k,
        ) by {
            lemma_line_band_members(objects, tolerance, g, k + lo);
            assert(sorted[k] == order[k + lo]);
        }
        assert(in_order_at(objects, Axis::LeftAscending, sorted, i - lo, j - lo));
        assert(sorted[i - lo] == order[i]);
        assert(sorted[j - lo] == order[j]);
    }
}

} // verus!
