use vstd::prelude::*;
use crate::call_tree::{lemma_sum_single, CallTree, LabelPath};
use crate::flamegraph::{merge_threads, merged, thread_view};
use crate::thread_stack::{
    ascend, build, initial_state, lemma_container_ascend, range_contains, EventItem, PathState,
    ThreadStack,
};

verus! {

/// The path at which interval `e` lands when it is placed on state `st`.
pub open spec fn placed_path(st: PathState, e: EventItem) -> LabelPath {
    ascend(st.ranges, st.cursor, e).push(e.label@)
}

/// The lengths of the intervals of `s` that landed at path `p`, summed.
pub open spec fn placed_sum(s: Seq<EventItem>, p: LabelPath) -> int
    decreases s.len(),
{
    if s.len() == 0 {
        0
    } else {
        placed_sum(s.drop_last(), p) + if placed_path(build(s.drop_last()), s.last()) == p {
            s.last().length()
        } else {
            0
        }
    }
}

/// An interval is placed below the nearest node, climbing from the cursor, whose
/// last observed range contains it: that node is the cursor itself when the
/// cursor contains it, and otherwise the nearest such node above the cursor.
/// The root contains every interval, so such a node always exists.
pub proof fn law_containment(ts: ThreadStack, e: EventItem)
    requires
        ts.wf(),
    ensures
        ({
            let i = ts.current_item as int;
            let c = ts.container(i, e);
            &&& 0 <= c < ts.tree.size()
            &&& range_contains(ts.tree.nodes@[c], e)
            &&& range_contains(ts.tree.nodes@[i], e) ==> c == i
            &&& !range_contains(ts.tree.nodes@[i], e) && i > 0 ==> c == ts.container(
                ts.tree.parent_of(i),
                e,
            )
            &&& ts.tree.path(c) == ascend(ts@.ranges, ts@.cursor, e)
            &&& ts.placement(e) == ts.tree.path(c).push(e.label@)
        }),
{
    lemma_container_ascend(ts, ts.current_item as int, e);
    let i = ts.current_item as int;
    if i > 0 {
        assert(ts.tree.nodes@[i].parent is Some);
    }
}

/// The duration accumulated at a path is the sum of the lengths of exactly the
/// intervals that landed at that path.
pub proof fn law_duration_accumulation(s: Seq<EventItem>, p: LabelPath)
    ensures
        (if build(s).durations.contains_key(p) {
            build(s).durations[p]
        } else {
            0
        }) == placed_sum(s, p),
    decreases s.len(),
{
    if s.len() > 0 {
        law_duration_accumulation(s.drop_last(), p);
    } else {
        assert(initial_state().durations.contains_key(Seq::empty()));
    }
}

/// Merging is commutative.
pub proof fn law_merge_commutative(a: Map<LabelPath, int>, b: Map<LabelPath, int>)
    ensures
        merged(a, b) == merged(b, a),
{
    assert(merged(a, b) =~= merged(b, a));
}

/// Merging is associative.
pub proof fn law_merge_associative(
    a: Map<LabelPath, int>,
    b: Map<LabelPath, int>,
    c: Map<LabelPath, int>,
)
    ensures
        merged(merged(a, b), c) == merged(a, merged(b, c)),
{
    assert(merged(merged(a, b), c) =~= merged(a, merged(b, c)));
}

proof fn lemma_merge_swap(a: Map<LabelPath, int>, b: Map<LabelPath, int>, c: Map<LabelPath, int>)
    ensures
        merged(merged(a, b), c) == merged(merged(a, c), b),
{
    assert(merged(merged(a, b), c) =~= merged(merged(a, c), b));
}

proof fn lemma_merge_move(s: Seq<EventItem>, ids: Seq<u32>, i: int)
    requires
        0 <= i < ids.len(),
    ensures
        merge_threads(s, ids) == merged(merge_threads(s, ids.remove(i)), thread_view(s, ids[i])),
    decreases ids.len(),
{
    if i == ids.len() - 1 {
        assert(ids.remove(i) =~= ids.drop_last());
    } else {
        let d = ids.drop_last();
        lemma_merge_move(s, d, i);
        assert(ids.remove(i).drop_last() =~= d.remove(i));
        assert(ids.remove(i).last() == ids.last());
        lemma_merge_swap(
            merge_threads(s, d.remove(i)),
            thread_view(s, ids[i]),
            thread_view(s, ids.last()),
        );
    }
}

/// The merged tree does not depend on the order in which the threads' trees
/// are merged: any two orders of the same threads give the same paths with the
/// same durations.
pub proof fn law_merge_order(s: Seq<EventItem>, ids1: Seq<u32>, ids2: Seq<u32>)
    requires
        ids1.to_multiset() == ids2.to_multiset(),
    ensures
        merge_threads(s, ids1) == merge_threads(s, ids2),
    decreases ids2.len(),
{
    ids1.to_multiset_ensures();
    ids2.to_multiset_ensures();
    if ids2.len() > 0 {
        let x = ids2.last();
        let d = ids2.drop_last();
        d.to_multiset_ensures();
        assert(d.push(x) =~= ids2);
        assert(ids2.contains(x));
        assert(ids2.to_multiset().count(x) > 0);
        assert(ids1.to_multiset().count(x) > 0);
        assert(ids1.contains(x));
        let i = choose|i: int| 0 <= i < ids1.len() && ids1[i] == x;
        lemma_merge_move(s, ids1, i);
        assert(ids1.remove(i).to_multiset() =~= d.to_multiset());
        law_merge_order(s, ids1.remove(i), d);
    }
}

/// Where two trees both have a node at one path, the merged tree has that path
/// with the sum of the two nodes' durations.
pub proof fn law_merge_additive(a: CallTree, b: CallTree, i: int, j: int)
    requires
        a.wf(),
        b.wf(),
        0 <= i < a.size(),
        0 <= j < b.size(),
        a.path(i) == b.path(j),
    ensures
        merged(a@, b@).contains_key(a.path(i)),
        merged(a@, b@)[a.path(i)] == a.nodes@[i].duration + b.nodes@[j].duration,
{
    lemma_sum_single(a, i, a.size());
    lemma_sum_single(b, j, b.size());
    assert(a.has_path(a.path(i)));
    assert(b.has_path(b.path(j)));
}

} // verus!
