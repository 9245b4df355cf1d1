use vstd::prelude::*;

verus! {

/// A label path from the root down to a node: one label per level.
pub type LabelPath = Seq<Seq<char>>;

/// One node of a call tree.
pub struct StackItem {
    pub label: String,
    pub parent: Option<usize>,
    pub duration: u64,
    pub last_start: u64,
    pub last_stop: u64,
    pub children: Vec<usize>,
}

impl StackItem {
    pub fn new(label: String, parent: Option<usize>, start: u64, stop: u64) -> (r: StackItem)
        ensures
            r.label@ == label@,
            r.parent == parent,
            r.duration == 0,
            r.last_start == start,
            r.last_stop == stop,
            r.children@ == Seq::<usize>::empty(),
    {
        StackItem { label, parent, duration: 0, last_start: start, last_stop: stop, children: Vec::new() }
    }

    /// The synthetic root: no label, and a range that contains every interval.
    pub fn new_root() -> (r: StackItem)
        ensures
            r.label@ == Seq::<char>::empty(),
            r.parent is None,
            r.duration == 0,
            r.last_start == 0,
            r.last_stop == u64::MAX,
            r.children@ == Seq::<usize>::empty(),
    {
        StackItem::new(String::new(), None, 0, u64::MAX)
    }

    /// Records one more visit `[start_ts, stop_ts]` of this node.
    pub fn update_last_range(&mut self, start_ts: u64, stop_ts: u64)
        requires
            start_ts <= stop_ts,
            old(self).duration + (stop_ts - start_ts) <= u64::MAX,
        ensures
            final(self).duration == old(self).duration + (stop_ts - start_ts),
            final(self).last_start == start_ts,
            final(self).last_stop == stop_ts,
            final(self).label == old(self).label,
            final(self).parent == old(self).parent,
            final(self).children == old(self).children,
    {
        self.duration = self.duration + (stop_ts - start_ts);
        self.last_start = start_ts;
        self.last_stop = stop_ts;
    }
}


/// An arena of call tree nodes. Node 0 is the root; every other node names its
/// parent by index, and the parent lists it among its children.
pub struct CallTree {
    pub nodes: Vec<StackItem>,
}

impl CallTree {
    pub open spec fn size(self) -> int {
        self.nodes@.len() as int
    }

    pub open spec fn parent_of(self, i: int) -> int {
        self.nodes@[i].parent.unwrap() as int
    }

    pub open spec fn label_of(self, i: int) -> Seq<char> {
        self.nodes@[i].label@
    }

    pub open spec fn is_root_item(item: StackItem) -> bool {
        &&& item.parent is None
        &&& item.label@ == Seq::<char>::empty()
        &&& item.duration == 0
        &&& item.last_start == 0
        &&& item.last_stop == u64::MAX
    }

    /// Parents come before their children, child lists and parent links agree,
    /// and no two children of one node carry the same label.
    pub open spec fn wf(self) -> bool {
        &&& 1 <= self.size() <= usize::MAX
        &&& Self::is_root_item(self.nodes@[0])
        &&& forall|i: int|
            0 < i < self.size() ==> {
                &&& (#[trigger] self.nodes@[i]).parent is Some
                &&& self.nodes@[i].parent.unwrap() < i
            }
        &&& forall|i: int, k: int|
            0 <= i < self.size() && 0 <= k < self.nodes@[i].children@.len() ==> {
                &&& i < #[trigger] self.nodes@[i].children@[k] < self.size()
                &&& self.nodes@[self.nodes@[i].children@[k] as int].parent == Some(i as usize)
            }
        &&& forall|c: int|
            0 < c < self.size() ==> #[trigger] self.nodes@[self.parent_of(c)].children@.contains(
                c as usize,
            )
        &&& forall|i: int| 0 <= i < self.size() ==> (#[trigger] self.nodes@[i]).children@.no_duplicates()
        &&& forall|i: int, j: int|
            0 < i < self.size() && 0 < j < self.size() && i != j && #[trigger] self.nodes@[i].parent
                == #[trigger] self.nodes@[j].parent ==> self.label_of(i) != self.label_of(j)
    }

    /// The labels from the root down to node `i`; the root's path is empty.
    pub open spec fn path(self, i: int) -> LabelPath
        decreases i,
    {
        if 0 < i < self.size() {
            match self.nodes@[i].parent {
                Some(p) => if (p as int) < i {
                    self.path(p as int).push(self.nodes@[i].label@)
                } else {
                    Seq::empty()
                },
                None => Seq::empty(),
            }
        } else {
            Seq::empty()
        }
    }

    pub open spec fn has_path(self, p: LabelPath) -> bool {
        exists|i: int| 0 <= i < self.size() && #[trigger] self.path(i) == p
    }

    /// The durations of the first `n` nodes whose path is `p`, summed.
    pub open spec fn duration_sum(self, p: LabelPath, n: int) -> int
        decreases n,
    {
        if n <= 0 {
            0
        } else {
            self.duration_sum(p, n - 1) + if self.path(n - 1) == p {
                self.nodes@[n - 1].duration as int
            } else {
                0
            }
        }
    }

    /// The durations of the first `n` nodes, summed.
    pub open spec fn total_sum(self, n: int) -> int
        decreases n,
    {
        if n <= 0 {
            0
        } else {
            self.total_sum(n - 1) + self.nodes@[n - 1].duration as int
        }
    }

    pub open spec fn total(self) -> int {
        self.total_sum(self.size())
    }

    pub open spec fn duration_at(self, p: LabelPath) -> int {
        self.duration_sum(p, self.size())
    }

    /// Shape, labels and paths of the first `old.size()` nodes are as in `old`.
    pub open spec fn keeps_nodes_of(self, old: CallTree) -> bool {
        &&& old.size() <= self.size()
        &&& forall|j: int|
            0 <= j < old.size() ==> {
                &&& (#[trigger] self.nodes@[j]).parent == old.nodes@[j].parent
                &&& self.nodes@[j].label@ == old.nodes@[j].label@
                &&& self.path(j) == old.path(j)
            }
    }

    /// Appends a child of `p` labelled `label` with range `[start, stop]` and no
    /// duration yet, and returns its index.
    pub fn add_child(&mut self, p: usize, label: String, start: u64, stop: u64) -> (r: usize)
        requires
            old(self).wf(),
            p < old(self).size(),
            forall|c: int|
                0 < c < old(self).size() && #[trigger] old(self).nodes@[c].parent == Some(p)
                    ==> old(self).label_of(c) != label@,
        ensures
            final(self).wf(),
            r == old(self).size(),
            final(self).size() == old(self).size() + 1,
            final(self).keeps_nodes_of(*old(self)),
            final(self).nodes@[r as int].parent == Some(p),
            final(self).nodes@[r as int].label@ == label@,
            final(self).nodes@[r as int].duration == 0,
            final(self).nodes@[r as int].last_start == start,
            final(self).nodes@[r as int].last_stop == stop,
            final(self).path(r as int) == old(self).path(p as int).push(label@),
            forall|j: int|
                0 <= j < old(self).size() ==> (#[trigger] final(self).nodes@[j]).duration
                    == old(self).nodes@[j].duration && final(self).nodes@[j].last_start
                    == old(self).nodes@[j].last_start && final(self).nodes@[j].last_stop
                    == old(self).nodes@[j].last_stop,
            final(self).total() == old(self).total(),
            forall|q: LabelPath| #[trigger]
                final(self).duration_sum(q, final(self).size()) == old(self).duration_at(q),
            forall|q: LabelPath| #[trigger]
                final(self).has_path(q) == (old(self).has_path(q) || q == old(self).path(
                    p as int,
                ).push(label@)),
    {
        let ghost t1 = *self;
        self.nodes.push(StackItem::new(label, Some(p), start, stop));
        let idx = self.nodes.len() - 1;
        self.nodes[p].children.push(idx);
        let ghost t2 = *self;
        assert forall|j: int| 0 <= j < t1.size() implies #[trigger] t2.nodes@[j].parent
            == t1.nodes@[j].parent && t2.nodes@[j].label@ == t1.nodes@[j].label@ by {}
        assert forall|j: int| 0 <= j < t1.size() implies #[trigger] t2.path(j) == t1.path(j) by {
            lemma_path_stable(t1, t2, t1.size(), j);
        }
        assert forall|i: int, k: int|
            0 <= i < t2.size() && 0 <= k < t2.nodes@[i].children@.len() implies {
                &&& i < #[trigger] t2.nodes@[i].children@[k] < t2.size()
                &&& t2.nodes@[t2.nodes@[i].children@[k] as int].parent == Some(i as usize)
            } by {
            if i == p && k == t1.nodes@[i].children@.len() {
            } else {
                assert(t2.nodes@[i].children@[k] == t1.nodes@[i].children@[k]);
            }
        }
        assert forall|c: int| 0 < c < t2.size() implies #[trigger] t2.nodes@[t2.parent_of(
            c,
        )].children@.contains(c as usize) by {
            if c < t1.size() {
                assert(t1.nodes@[t1.parent_of(c)].children@.contains(c as usize));
                let m = choose|m: int|
                    0 <= m < t1.nodes@[t1.parent_of(c)].children@.len()
                        && t1.nodes@[t1.parent_of(c)].children@[m] == c as usize;
                assert(t2.nodes@[t2.parent_of(c)].children@[m] == c as usize);
            } else {
                assert(t2.nodes@[p as int].children@.last() == idx);
            }
        }
        assert forall|i: int| 0 <= i < t2.size() implies (#[trigger] t2.nodes@[i]).children@.no_duplicates() by {
            if i == p {
                assert forall|k: int| 0 <= k < t1.nodes@[i].children@.len() implies #[trigger] t1.nodes@[i].children@[k] != idx by {
                    assert(t1.nodes@[i].children@[k] < t1.size());
                }
            }
        }
        assert(t2.size() == t1.size() + 1);
        assert(t2.nodes@[idx as int].label@ == label@);
        assert(t2.nodes@[idx as int].parent == Some(p));
        assert(t2.path(p as int) == t1.path(p as int));
        assert(t2.path(idx as int) == t2.path(p as int).push(t2.nodes@[idx as int].label@));
        assert(t2.path(idx as int) == t1.path(p as int).push(label@));
        assert forall|q: LabelPath| #[trigger] t2.duration_sum(q, t2.size()) == t1.duration_at(q) by {
            lemma_sum_frame(t1, t2, t1.size(), q);
        }
        proof {
            lemma_sum_frame(t1, t2, t1.size(), Seq::empty());
        }
        assert forall|q: LabelPath| #[trigger] t2.has_path(q) == (t1.has_path(q) || q == t1.path(
            p as int,
        ).push(label@)) by {
            if t1.has_path(q) {
                let j = choose|j: int| 0 <= j < t1.size() && #[trigger] t1.path(j) == q;
                assert(t2.path(j) == q);
            }
            if t2.has_path(q) {
                let j = choose|j: int| 0 <= j < t2.size() && #[trigger] t2.path(j) == q;
                if j < t1.size() {
                    assert(t1.path(j) == q);
                }
            }
            if q == t1.path(p as int).push(label@) {
                assert(t2.path(idx as int) == q);
            }
        }
        idx
    }

    /// Adds `d` to the duration of node `c`.
    pub fn add_duration(&mut self, c: usize, d: u64)
        requires
            old(self).wf(),
            0 < c < old(self).size(),
            old(self).total() + d <= u64::MAX,
        ensures
            final(self).wf(),
            final(self).size() == old(self).size(),
            final(self).keeps_nodes_of(*old(self)),
            final(self).nodes@[c as int].duration == old(self).nodes@[c as int].duration + d,
            forall|j: int|
                0 <= j < old(self).size() ==> #[trigger] final(self).nodes@[j].last_start
                    == old(self).nodes@[j].last_start && final(self).nodes@[j].last_stop
                    == old(self).nodes@[j].last_stop,
            forall|j: int|
                0 <= j < old(self).size() && j != c ==> #[trigger] final(self).nodes@[j].duration
                    == old(self).nodes@[j].duration,
            final(self).total() == old(self).total() + d,
            forall|q: LabelPath| #[trigger]
                final(self).duration_at(q) == old(self).duration_at(q) + if old(self).path(
                    c as int,
                ) == q {
                    d as int
                } else {
                    0
                },
            forall|q: LabelPath| #[trigger] final(self).has_path(q) == old(self).has_path(q),
    {
        let ghost t1 = *self;
        proof {
            lemma_duration_le_total(t1, c as int, t1.size());
        }
        self.nodes[c].duration = self.nodes[c].duration + d;
        let ghost t2 = *self;
        assert forall|j: int| 0 <= j < t1.size() && j != c implies #[trigger] t2.nodes@[j] == t1.nodes@[j] by {}
        proof {
            lemma_wf_same_shape(t1, t2);
        }
        assert forall|j: int| 0 <= j < t1.size() implies #[trigger] t2.path(j) == t1.path(j) by {
            lemma_path_stable(t1, t2, t1.size(), j);
        }
        assert forall|q: LabelPath| #[trigger] t2.duration_at(q) == t1.duration_at(q) + if t1.path(
            c as int,
        ) == q {
            d as int
        } else {
            0
        } by {
            lemma_sum_bump(t1, t2, t1.size(), c as int, d as int, q);
        }
        proof {
            lemma_sum_bump(t1, t2, t1.size(), c as int, d as int, Seq::empty());
        }
        assert forall|q: LabelPath| #[trigger] t2.has_path(q) == t1.has_path(q) by {
            if t1.has_path(q) {
                let j = choose|j: int| 0 <= j < t1.size() && #[trigger] t1.path(j) == q;
                assert(t2.path(j) == q);
            }
            if t2.has_path(q) {
                let j = choose|j: int| 0 <= j < t2.size() && #[trigger] t2.path(j) == q;
                assert(t1.path(j) == q);
            }
        }
    }

    /// Records a visit `[start, stop]` of node `c`: its duration grows by the
    /// visit's length and its last range becomes the visit.
    pub fn visit(&mut self, c: usize, start: u64, stop: u64)
        requires
            old(self).wf(),
            0 < c < old(self).size(),
            start <= stop,
            old(self).total() + (stop - start) <= u64::MAX,
        ensures
            final(self).wf(),
            final(self).size() == old(self).size(),
            final(self).keeps_nodes_of(*old(self)),
            final(self).nodes@[c as int].duration == old(self).nodes@[c as int].duration + (stop
                - start),
            final(self).nodes@[c as int].last_start == start,
            final(self).nodes@[c as int].last_stop == stop,
            forall|j: int|
                0 <= j < old(self).size() && j != c ==> #[trigger] final(self).nodes@[j]
                    == old(self).nodes@[j],
            final(self).total() == old(self).total() + (stop - start),
            forall|q: LabelPath| #[trigger]
                final(self).duration_at(q) == old(self).duration_at(q) + if old(self).path(
                    c as int,
                ) == q {
                    (stop - start) as int
                } else {
                    0
                },
            forall|q: LabelPath| #[trigger] final(self).has_path(q) == old(self).has_path(q),
    {
        let ghost t1 = *self;
        let ghost d = (stop - start) as int;
        proof {
            lemma_duration_le_total(t1, c as int, t1.size());
        }
        self.nodes[c].update_last_range(start, stop);
        let ghost t2 = *self;
        assert forall|j: int| 0 <= j < t1.size() && j != c implies #[trigger] t2.nodes@[j] == t1.nodes@[j] by {}
        proof {
            lemma_wf_same_shape(t1, t2);
        }
        assert forall|j: int| 0 <= j < t1.size() implies #[trigger] t2.path(j) == t1.path(j) by {
            lemma_path_stable(t1, t2, t1.size(), j);
        }
        assert forall|q: LabelPath| #[trigger] t2.duration_at(q) == t1.duration_at(q) + if t1.path(
            c as int,
        ) == q {
            d
        } else {
            0
        } by {
            lemma_sum_bump(t1, t2, t1.size(), c as int, d, q);
        }
        proof {
            lemma_sum_bump(t1, t2, t1.size(), c as int, d, Seq::empty());
        }
        assert forall|q: LabelPath| #[trigger] t2.has_path(q) == t1.has_path(q) by {
            if t1.has_path(q) {
                let j = choose|j: int| 0 <= j < t1.size() && #[trigger] t1.path(j) == q;
                assert(t2.path(j) == q);
            }
            if t2.has_path(q) {
                let j = choose|j: int| 0 <= j < t2.size() && #[trigger] t2.path(j) == q;
                assert(t1.path(j) == q);
            }
        }
    }
}


impl View for CallTree {
    type V = Map<LabelPath, int>;

    /// Each path present in the tree, mapped to its accumulated duration.
    open spec fn view(&self) -> Map<LabelPath, int> {
        Map::new(|p: LabelPath| self.has_path(p), |p: LabelPath| self.duration_at(p))
    }
}

/// Two trees whose first `n` nodes agree on labels and parents agree on those
/// nodes' paths.
pub proof fn lemma_path_stable(t1: CallTree, t2: CallTree, n: int, i: int)
    requires
        n <= t1.size(),
        n <= t2.size(),
        0 <= i < n,
        forall|j: int|
            0 <= j < n ==> #[trigger] t1.nodes@[j].parent == t2.nodes@[j].parent
                && t1.nodes@[j].label@ == t2.nodes@[j].label@,
    ensures
        t1.path(i) == t2.path(i),
    decreases i,
{
    if 0 < i {
        match t1.nodes@[i].parent {
            Some(p) => if (p as int) < i {
                lemma_path_stable(t1, t2, n, p as int);
            },
            None => {},
        }
    }
}

/// In a well-formed tree, the path of a non-root node is its parent's path
/// extended by its label.
pub proof fn lemma_path_step(t: CallTree, i: int)
    requires
        t.wf(),
        0 < i < t.size(),
    ensures
        t.path(i) == t.path(t.parent_of(i)).push(t.label_of(i)),
        t.path(i).len() == t.path(t.parent_of(i)).len() + 1,
{
    assert(t.nodes@[i].parent is Some);
}

/// The root is the only node with the empty path.
pub proof fn lemma_path_len(t: CallTree, i: int)
    requires
        t.wf(),
        0 <= i < t.size(),
    ensures
        (t.path(i).len() == 0) == (i == 0),
{
    if i > 0 {
        lemma_path_step(t, i);
    }
}

/// In a well-formed tree distinct nodes have distinct paths.
pub proof fn lemma_path_injective(t: CallTree, i: int, j: int)
    requires
        t.wf(),
        0 <= i < t.size(),
        0 <= j < t.size(),
        t.path(i) == t.path(j),
    ensures
        i == j,
    decreases i + j,
{
    lemma_path_len(t, i);
    lemma_path_len(t, j);
    if i > 0 && j > 0 {
        lemma_path_step(t, i);
        lemma_path_step(t, j);
        let pi = t.parent_of(i);
        let pj = t.parent_of(j);
        assert(t.path(pi) == t.path(i).drop_last());
        assert(t.path(pj) == t.path(j).drop_last());
        lemma_path_injective(t, pi, pj);
        assert(t.label_of(i) == t.path(i).last());
        assert(t.label_of(j) == t.path(j).last());
        assert(t.nodes@[i].parent == t.nodes@[j].parent);
    }
}


/// Well-formedness depends only on the root and on each node's parent, label
/// and children.
pub proof fn lemma_wf_same_shape(t1: CallTree, t2: CallTree)
    requires
        t1.wf(),
        t1.size() == t2.size(),
        CallTree::is_root_item(t2.nodes@[0]),
        forall|j: int|
            0 <= j < t1.size() ==> {
                &&& (#[trigger] t2.nodes@[j]).parent == t1.nodes@[j].parent
                &&& t2.nodes@[j].label == t1.nodes@[j].label
                &&& t2.nodes@[j].children == t1.nodes@[j].children
            },
    ensures
        t2.wf(),
{
    assert forall|i: int, k: int|
        0 <= i < t2.size() && 0 <= k < t2.nodes@[i].children@.len() implies {
            &&& i < #[trigger] t2.nodes@[i].children@[k] < t2.size()
            &&& t2.nodes@[t2.nodes@[i].children@[k] as int].parent == Some(i as usize)
        } by {
        assert(t1.nodes@[i].children@[k] == t2.nodes@[i].children@[k]);
        assert(i < t1.nodes@[i].children@[k] < t1.size());
    }
    assert forall|c: int| 0 < c < t2.size() implies #[trigger] t2.nodes@[t2.parent_of(
        c,
    )].children@.contains(c as usize) by {
        assert(t1.nodes@[t1.parent_of(c)].children@.contains(c as usize));
        assert(t1.parent_of(c) == t2.parent_of(c));
    }
    assert forall|i: int, j: int|
        0 < i < t2.size() && 0 < j < t2.size() && i != j && #[trigger] t2.nodes@[i].parent
            == #[trigger] t2.nodes@[j].parent implies t2.label_of(i) != t2.label_of(j) by {
        assert(t1.nodes@[i].parent == t1.nodes@[j].parent);
    }
    assert forall|i: int| 0 <= i < t2.size() implies (#[trigger] t2.nodes@[i]).children@.no_duplicates() by {
        assert(t1.nodes@[i].children@.no_duplicates());
    }
}

/// Sums over the first `n` nodes depend only on those nodes' paths and durations.
pub proof fn lemma_sum_frame(t1: CallTree, t2: CallTree, n: int, p: LabelPath)
    requires
        0 <= n <= t1.size(),
        n <= t2.size(),
        forall|j: int|
            0 <= j < n ==> #[trigger] t1.path(j) == t2.path(j) && t1.nodes@[j].duration
                == t2.nodes@[j].duration,
    ensures
        t1.duration_sum(p, n) == t2.duration_sum(p, n),
        t1.total_sum(n) == t2.total_sum(n),
    decreases n,
{
    if n > 0 {
        lemma_sum_frame(t1, t2, n - 1, p);
        assert(t1.path(n - 1) == t2.path(n - 1));
    }
}

/// Raising the duration of node `c` by `d` raises the sum at `c`'s path, and
/// the total, by `d`.
pub proof fn lemma_sum_bump(t1: CallTree, t2: CallTree, n: int, c: int, d: int, p: LabelPath)
    requires
        0 <= c < n <= t1.size(),
        n <= t2.size(),
        forall|j: int| 0 <= j < n ==> #[trigger] t1.path(j) == t2.path(j),
        forall|j: int|
            0 <= j < n && j != c ==> #[trigger] t1.nodes@[j].duration == t2.nodes@[j].duration,
        t2.nodes@[c].duration == t1.nodes@[c].duration + d,
    ensures
        t2.duration_sum(p, n) == t1.duration_sum(p, n) + if t1.path(c) == p {
            d
        } else {
            0
        },
        t2.total_sum(n) == t1.total_sum(n) + d,
    decreases n,
{
    if n - 1 == c {
        lemma_sum_frame(t1, t2, n - 1, p);
        assert(t1.path(n - 1) == t2.path(n - 1));
    } else {
        lemma_sum_bump(t1, t2, n - 1, c, d, p);
        assert(t1.path(n - 1) == t2.path(n - 1));
        assert(t1.nodes@[n - 1].duration == t2.nodes@[n - 1].duration);
    }
}

/// A sum over nodes none of which has path `p` is zero.
pub proof fn lemma_sum_absent(t: CallTree, p: LabelPath, n: int)
    requires
        0 <= n <= t.size(),
        forall|j: int| 0 <= j < n ==> #[trigger] t.path(j) != p,
    ensures
        t.duration_sum(p, n) == 0,
    decreases n,
{
    if n > 0 {
        lemma_sum_absent(t, p, n - 1);
    }
}

/// In a well-formed tree the duration at a node's path is that node's own.
pub proof fn lemma_sum_single(t: CallTree, i: int, n: int)
    requires
        t.wf(),
        0 <= i < n <= t.size(),
    ensures
        t.duration_sum(t.path(i), n) == t.nodes@[i].duration,
    decreases n,
{
    if n - 1 == i {
        assert forall|j: int| 0 <= j < i implies #[trigger] t.path(j) != t.path(i) by {
            if t.path(j) == t.path(i) {
                lemma_path_injective(t, i, j);
            }
        }
        lemma_sum_absent(t, t.path(i), i);
    } else {
        lemma_sum_single(t, i, n - 1);
        if t.path(n - 1) == t.path(i) {
            lemma_path_injective(t, i, n - 1);
        }
    }
}

/// No single duration exceeds the total.
pub proof fn lemma_duration_le_total(t: CallTree, i: int, n: int)
    requires
        0 <= i < n <= t.size(),
    ensures
        t.nodes@[i].duration <= t.total_sum(n),
    decreases n,
{
    if n - 1 > i {
        lemma_duration_le_total(t, i, n - 1);
    } else {
        lemma_total_nonneg(t, n - 1);
    }
}

/// A prefix of the nodes sums to no more than all of them.
pub proof fn lemma_total_prefix(t: CallTree, m: int, n: int)
    requires
        0 <= m <= n,
    ensures
        t.total_sum(m) <= t.total_sum(n),
    decreases n - m,
{
    if m < n {
        lemma_total_prefix(t, m, n - 1);
    }
}

/// A path that is not in the tree carries no duration.
pub proof fn lemma_absent_path(t: CallTree, q: LabelPath)
    requires
        !t.has_path(q),
    ensures
        t.duration_at(q) == 0,
{
    assert forall|j: int| 0 <= j < t.size() implies #[trigger] t.path(j) != q by {}
    lemma_sum_absent(t, q, t.size());
}

pub proof fn lemma_total_nonneg(t: CallTree, n: int)
    ensures
        t.total_sum(n) >= 0,
    decreases n,
{
    if n > 0 {
        lemma_total_nonneg(t, n - 1);
    }
}

impl CallTree {
    /// A tree that holds the root alone.
    pub fn new() -> (r: CallTree)
        ensures
            r.wf(),
            r.size() == 1,
            r.total() == 0,
    {
        let mut nodes: Vec<StackItem> = Vec::new();
        nodes.push(StackItem::new_root());
        let r = CallTree { nodes };
        assert(r.total_sum(0) == 0);
        r
    }

    /// The child of node `p` labelled `label`, if there is one.
    pub fn find_child(&self, p: usize, label: &String) -> (r: Option<usize>)
        requires
            self.wf(),
            p < self.size(),
        ensures
            match r {
                Some(c) => {
                    &&& 0 < c < self.size()
                    &&& self.nodes@[c as int].parent == Some(p)
                    &&& self.label_of(c as int) == label@
                },
                None => forall|c: int|
                    0 < c < self.size() && #[trigger] self.nodes@[c].parent == Some(p)
                        ==> self.label_of(c) != label@,
            },
    {
        let children = &self.nodes[p].children;
        let mut k: usize = 0;
        while k < children.len()
            invariant
                self.wf(),
                p < self.size(),
                children == self.nodes@[p as int].children,
                k <= children@.len(),
                forall|m: int| 0 <= m < k ==> self.label_of(#[trigger] children@[m] as int) != label@,
            decreases children@.len() - k,
        {
            let c = children[k];
            assert(p < c < self.size());
            if self.nodes[c].label == *label {
                return Some(c);
            }
            k = k + 1;
        }
        assert forall|c: int|
            0 < c < self.size() && #[trigger] self.nodes@[c].parent == Some(p)
                implies self.label_of(c) != label@ by {
            assert(self.parent_of(c) == p);
            assert(self.nodes@[self.parent_of(c)].children@.contains(c as usize));
            assert(children@.contains(c as usize));
            let m = choose|m: int| 0 <= m < children@.len() && children@[m] == c as usize;
            assert(children@[m] as int == c);
            assert(self.label_of(children@[m] as int) != label@);
        }
        None
    }
}

} // verus!
