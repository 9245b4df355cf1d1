use vstd::prelude::*;
use crate::call_tree::{
    lemma_absent_path, lemma_path_injective, lemma_path_len, lemma_path_step, CallTree, LabelPath,
    StackItem,
};

verus! {

/// One interval of work on one thread: `label` ran from `start_ts` to `stop_ts`.
pub struct EventItem {
    pub label: String,
    pub thread_id: u32,
    pub start_ts: u64,
    pub stop_ts: u64,
}

impl EventItem {
    pub open spec fn wf(self) -> bool {
        self.start_ts <= self.stop_ts
    }

    pub open spec fn length(self) -> int {
        self.stop_ts - self.start_ts
    }

    /// A field-for-field copy.
    pub fn duplicate(&self) -> (r: EventItem)
        ensures
            r == *self,
    {
        EventItem {
            label: self.label.clone(),
            thread_id: self.thread_id,
            start_ts: self.start_ts,
            stop_ts: self.stop_ts,
        }
    }
}

/// Whether the last observed range of `item` contains the interval `e`.
pub open spec fn range_contains(item: StackItem, e: EventItem) -> bool {
    item.last_start <= e.start_ts && item.last_stop >= e.stop_ts
}


/// What a thread's stack means: the accumulated duration and the last observed
/// range of each path, and the path of the cursor.
pub struct PathState {
    pub durations: Map<LabelPath, int>,
    pub ranges: Map<LabelPath, (u64, u64)>,
    pub cursor: LabelPath,
}

/// The state of a thread that has seen no interval: the root alone.
pub open spec fn initial_state() -> PathState {
    PathState {
        durations: map![Seq::empty() => 0int],
        ranges: map![Seq::empty() => (0u64, u64::MAX)],
        cursor: Seq::empty(),
    }
}

pub open spec fn pair_contains(r: (u64, u64), e: EventItem) -> bool {
    r.0 <= e.start_ts && r.1 >= e.stop_ts
}

/// Climbs from `cur` towards the root until a path whose last range contains
/// `e`; the root contains everything.
pub open spec fn ascend(ranges: Map<LabelPath, (u64, u64)>, cur: LabelPath, e: EventItem) -> LabelPath
    decreases cur.len(),
{
    if cur.len() == 0 || pair_contains(ranges[cur], e) {
        cur
    } else {
        ascend(ranges, cur.drop_last(), e)
    }
}

/// One interval placed on a thread: below the nearest containing path, under
/// its own label, adding its length there and taking its range.
pub open spec fn step(st: PathState, e: EventItem) -> PathState {
    let p = ascend(st.ranges, st.cursor, e).push(e.label@);
    let before = if st.durations.contains_key(p) {
        st.durations[p]
    } else {
        0
    };
    PathState {
        durations: st.durations.insert(p, before + e.length()),
        ranges: st.ranges.insert(p, (e.start_ts, e.stop_ts)),
        cursor: p,
    }
}

/// The state after the intervals of `s` are placed in order.
pub open spec fn build(s: Seq<EventItem>) -> PathState
    decreases s.len(),
{
    if s.len() == 0 {
        initial_state()
    } else {
        step(build(s.drop_last()), s.last())
    }
}

/// The call tree of one thread, with a cursor on the node most recently visited.
pub struct ThreadStack {
    pub tree: CallTree,
    pub current_item: usize,
}

impl ThreadStack {
    pub open spec fn wf(self) -> bool {
        &&& self.tree.wf()
        &&& self.current_item < self.tree.size()
    }

    /// The nearest node at or above `i` whose last range contains `e`.
    pub open spec fn container(self, i: int, e: EventItem) -> int
        decreases i,
    {
        if 0 < i < self.tree.size() && self.tree.nodes@[i].parent is Some && self.tree.parent_of(i)
            < i && !range_contains(self.tree.nodes@[i], e) {
            self.container(self.tree.parent_of(i), e)
        } else {
            i
        }
    }

    /// The last range of the node at path `p`.
    pub open spec fn range_at(self, p: LabelPath) -> (u64, u64) {
        let i = choose|i: int| 0 <= i < self.tree.size() && #[trigger] self.tree.path(i) == p;
        (self.tree.nodes@[i].last_start, self.tree.nodes@[i].last_stop)
    }

    /// The path at which `e` is recorded when it is added to this stack.
    pub open spec fn placement(self, e: EventItem) -> LabelPath {
        self.tree.path(self.container(self.current_item as int, e)).push(e.label@)
    }

    pub fn new() -> (r: ThreadStack)
        ensures
            r.wf(),
            r.current_item == 0,
            r.tree.size() == 1,
            r.tree.total() == 0,
    {
        ThreadStack { tree: CallTree::new(), current_item: 0 }
    }

    /// Whether the last observed range of node `stack_item` contains `event_item`.
    pub fn is_parent_of(&self, stack_item: usize, event_item: &EventItem) -> (r: bool)
        requires
            self.wf(),
            stack_item < self.tree.size(),
        ensures
            r == range_contains(self.tree.nodes@[stack_item as int], *event_item),
    {
        let item = &self.tree.nodes[stack_item];
        item.last_start <= event_item.start_ts && item.last_stop >= event_item.stop_ts
    }

    /// Places `item` in the tree: the cursor climbs to the nearest node whose last
    /// range contains the item, then moves to that node's child with the item's
    /// label, created if missing, which takes the item's length and range.
    pub fn add_item(&mut self, item: &EventItem)
        requires
            old(self).wf(),
            item.wf(),
            old(self).tree.total() + item.length() <= u64::MAX,
        ensures
            final(self).wf(),
            ({
                let c = old(self).container(old(self).current_item as int, *item);
                let n = final(self).current_item as int;
                &&& 0 <= c < old(self).tree.size()
                &&& range_contains(old(self).tree.nodes@[c], *item)
                &&& final(self).tree.nodes@[n].parent == Some(c as usize)
                &&& final(self).tree.label_of(n) == item.label@
                &&& final(self).tree.path(n) == old(self).placement(*item)
                &&& final(self).tree.nodes@[n].last_start == item.start_ts
                &&& final(self).tree.nodes@[n].last_stop == item.stop_ts
                &&& if n < old(self).tree.size() {
                    &&& final(self).tree.size() == old(self).tree.size()
                    &&& final(self).tree.nodes@[n].duration == old(self).tree.nodes@[n].duration
                        + item.length()
                } else {
                    &&& n == old(self).tree.size()
                    &&& final(self).tree.size() == old(self).tree.size() + 1
                    &&& final(self).tree.nodes@[n].duration == item.length()
                    &&& !old(self).tree.has_path(old(self).placement(*item))
                }
                &&& forall|j: int|
                    0 <= j < old(self).tree.size() && j != n ==> #[trigger] final(self).tree.nodes@[j].duration == old(self).tree.nodes@[j].duration
                        && final(self).tree.nodes@[j].last_start
                        == old(self).tree.nodes@[j].last_start
                        && final(self).tree.nodes@[j].last_stop
                        == old(self).tree.nodes@[j].last_stop
            }),
            final(self)@ == step(old(self)@, *item),
            final(self).tree.keeps_nodes_of(old(self).tree),
            final(self).tree.total() == old(self).tree.total() + item.length(),
            forall|q: LabelPath| #[trigger]
                final(self).tree.duration_at(q) == old(self).tree.duration_at(q) + if q == old(self).placement(*item) {
                    item.length()
                } else {
                    0
                },
            forall|q: LabelPath| #[trigger]
                final(self).tree.has_path(q) == (old(self).tree.has_path(q) || q == old(self).placement(*item)),
    {
        let ghost s0 = *self;
        let mut cur = self.current_item;
        while !self.is_parent_of(cur, item)
            invariant
                *self == s0,
                s0.wf(),
                cur < self.tree.size(),
                self.container(cur as int, *item) == s0.container(s0.current_item as int, *item),
            decreases cur,
        {
            if cur == 0 {
                assert(range_contains(self.tree.nodes@[0], *item));
            }
            assert(self.tree.nodes@[cur as int].parent is Some);
            cur = match self.tree.nodes[cur].parent {
                Some(p) => p,
                None => 0,
            };
        }
        let ghost c = cur as int;
        let ghost placed = s0.placement(*item);
        assert(placed == s0.tree.path(c).push(item.label@));
        let n = match self.tree.find_child(cur, &item.label) {
            Some(n) => {
                proof {
                    lemma_path_step(self.tree, n as int);
                }
                n
            },
            None => self.tree.add_child(cur, item.label.clone(), item.start_ts, item.stop_ts),
        };
        let ghost t1 = self.tree;
        assert(t1.path(n as int) == placed);
        assert(t1.total() == s0.tree.total());
        self.tree.visit(n, item.start_ts, item.stop_ts);
        self.current_item = n;
        proof {
            if n as int == s0.tree.size() {
                if s0.tree.has_path(placed) {
                    let j = choose|j: int| 0 <= j < s0.tree.size() && #[trigger] s0.tree.path(j)
                        == placed;
                    assert(t1.path(j) == placed);
                    lemma_path_injective(t1, j, n as int);
                }
            }
            let s1 = *self;
            lemma_container_ascend(s0, s0.current_item as int, *item);
            let st = step(s0@, *item);
            assert(s1@.cursor == st.cursor);
            assert(s1@.durations =~= st.durations) by {
                if !s0.tree.has_path(placed) {
                    lemma_absent_path(s0.tree, placed);
                }
            }
            assert(s1@.ranges =~= st.ranges) by {
                assert forall|q: LabelPath| #[trigger] s1@.ranges.contains_key(q) implies s1@.ranges[q]
                    == st.ranges[q] by {
                    if q == placed {
                        lemma_range_at(s1, n as int);
                    } else {
                        let j = choose|j: int| 0 <= j < s0.tree.size() && #[trigger] s0.tree.path(j)
                            == q;
                        lemma_range_at(s0, j);
                        assert(s1.tree.path(j) == q);
                        lemma_range_at(s1, j);
                    }
                }
            }
        }
    }
}

impl View for ThreadStack {
    type V = PathState;

    open spec fn view(&self) -> PathState {
        PathState {
            durations: self.tree@,
            ranges: Map::new(|p: LabelPath| self.tree.has_path(p), |p: LabelPath| self.range_at(p)),
            cursor: self.tree.path(self.current_item as int),
        }
    }
}

/// The range recorded for a node's path is that node's own.
pub proof fn lemma_range_at(ts: ThreadStack, i: int)
    requires
        ts.wf(),
        0 <= i < ts.tree.size(),
    ensures
        ts.range_at(ts.tree.path(i)) == (ts.tree.nodes@[i].last_start, ts.tree.nodes@[i].last_stop),
        ts@.ranges.contains_key(ts.tree.path(i)),
{
    let p = ts.tree.path(i);
    assert(ts.tree.has_path(p));
    let j = choose|j: int| 0 <= j < ts.tree.size() && #[trigger] ts.tree.path(j) == p;
    lemma_path_injective(ts.tree, i, j);
}

/// Climbing the nodes from `i` and climbing its path reach the same place.
pub proof fn lemma_container_ascend(ts: ThreadStack, i: int, e: EventItem)
    requires
        ts.wf(),
        0 <= i < ts.tree.size(),
    ensures
        ts.tree.path(ts.container(i, e)) == ascend(ts@.ranges, ts.tree.path(i), e),
        0 <= ts.container(i, e) < ts.tree.size(),
        range_contains(ts.tree.nodes@[ts.container(i, e)], e),
    decreases i,
{
    lemma_path_len(ts.tree, i);
    if i > 0 {
        lemma_range_at(ts, i);
        lemma_path_step(ts.tree, i);
        assert(ts.tree.nodes@[i].parent is Some);
        if !range_contains(ts.tree.nodes@[i], e) {
            lemma_container_ascend(ts, ts.tree.parent_of(i), e);
            assert(ts.tree.path(i).drop_last() == ts.tree.path(ts.tree.parent_of(i)));
        }
    }
}

} // verus!
