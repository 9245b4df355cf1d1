use vstd::prelude::*;
use crate::event::{EventRecord, FieldValue};
use crate::label_mapping::LabelGetter;
use crate::thread_stack::{build, initial_state, step, EventItem, ThreadStack};
use crate::call_tree::{
    lemma_absent_path, lemma_path_len, lemma_path_step, lemma_total_nonneg, lemma_total_prefix,
    CallTree, LabelPath,
};

verus! {

/// `e` inserted into `s` after every element that starts no later than it,
/// scanning from the back.
pub open spec fn insert_by_start(s: Seq<EventItem>, e: EventItem) -> Seq<EventItem>
    decreases s.len(),
{
    if s.len() == 0 {
        seq![e]
    } else if s.last().start_ts <= e.start_ts {
        s.push(e)
    } else {
        insert_by_start(s.drop_last(), e).push(s.last())
    }
}

/// `s` sorted by start time; items with equal starts keep their order.
pub open spec fn sorted_by_start(s: Seq<EventItem>) -> Seq<EventItem>
    decreases s.len(),
{
    if s.len() == 0 {
        s
    } else {
        insert_by_start(sorted_by_start(s.drop_last()), s.last())
    }
}

proof fn lemma_insert_at(s: Seq<EventItem>, e: EventItem, pos: int)
    requires
        0 <= pos <= s.len(),
        forall|k: int| pos <= k < s.len() ==> (#[trigger] s[k]).start_ts > e.start_ts,
        pos == 0 || s[pos - 1].start_ts <= e.start_ts,
    ensures
        insert_by_start(s, e) == s.insert(pos, e),
    decreases s.len(),
{
    if s.len() == 0 {
        assert(s.insert(pos, e) =~= seq![e]);
    } else if pos == s.len() {
        assert(s.insert(pos, e) =~= s.push(e));
    } else {
        assert(s[s.len() - 1].start_ts > e.start_ts);
        lemma_insert_at(s.drop_last(), e, pos);
        assert(s.drop_last().insert(pos, e).push(s.last()) =~= s.insert(pos, e));
    }
}

/// A copy of `items` sorted by start time, stable for equal starts.
pub fn sort_by_start(items: &Vec<EventItem>) -> (r: Vec<EventItem>)
    ensures
        r@ == sorted_by_start(items@),
{
    let mut out: Vec<EventItem> = Vec::new();
    let mut i: usize = 0;
    assert(items@.take(0) =~= Seq::<EventItem>::empty());
    while i < items.len()
        invariant
            i <= items@.len(),
            out@ == sorted_by_start(items@.take(i as int)),
        decreases items@.len() - i,
    {
        let e = items[i].duplicate();
        let mut pos: usize = out.len();
        while pos > 0 && out[pos - 1].start_ts > e.start_ts
            invariant
                pos <= out@.len(),
                forall|k: int| pos <= k < out@.len() ==> (#[trigger] out@[k]).start_ts > e.start_ts,
            decreases pos,
        {
            pos = pos - 1;
        }
        proof {
            lemma_insert_at(out@, e, pos as int);
            assert(items@.take(i as int + 1).drop_last() =~= items@.take(i as int));
        }
        out.insert(pos, e);
        i = i + 1;
    }
    assert(items@.take(i as int) =~= items@);
    out
}

/// The union of two path maps, adding durations where the paths coincide.
pub open spec fn merged(a: Map<LabelPath, int>, b: Map<LabelPath, int>) -> Map<LabelPath, int> {
    Map::new(
        |p: LabelPath| a.contains_key(p) || b.contains_key(p),
        |p: LabelPath|
            (if a.contains_key(p) {
                a[p]
            } else {
                0
            }) + (if b.contains_key(p) {
                b[p]
            } else {
                0
            }),
    )
}

/// The lengths of all intervals of `s`, summed.
pub open spec fn total_length(s: Seq<EventItem>) -> int
    decreases s.len(),
{
    if s.len() == 0 {
        0
    } else {
        total_length(s.drop_last()) + s.last().length()
    }
}

/// The intervals of `s` that belong to thread `tid`, in order.
pub open spec fn of_thread(s: Seq<EventItem>, tid: u32) -> Seq<EventItem>
    decreases s.len(),
{
    if s.len() == 0 {
        s
    } else if s.last().thread_id == tid {
        of_thread(s.drop_last(), tid).push(s.last())
    } else {
        of_thread(s.drop_last(), tid)
    }
}

/// The thread ids of `s`, each once, in order of first appearance.
pub open spec fn thread_ids(s: Seq<EventItem>) -> Seq<u32>
    decreases s.len(),
{
    if s.len() == 0 {
        Seq::empty()
    } else if thread_ids(s.drop_last()).contains(s.last().thread_id) {
        thread_ids(s.drop_last())
    } else {
        thread_ids(s.drop_last()).push(s.last().thread_id)
    }
}

/// The durations by path of the tree that thread `tid` builds from `s`.
pub open spec fn thread_view(s: Seq<EventItem>, tid: u32) -> Map<LabelPath, int> {
    build(of_thread(s, tid)).durations
}

/// The tree that holds only the root.
pub open spec fn root_view() -> Map<LabelPath, int> {
    map![Seq::empty() => 0int]
}

/// The trees of the threads `ids` merged, in that order, into a bare root.
pub open spec fn merge_threads(s: Seq<EventItem>, ids: Seq<u32>) -> Map<LabelPath, int>
    decreases ids.len(),
{
    if ids.len() == 0 {
        root_view()
    } else {
        merged(merge_threads(s, ids.drop_last()), thread_view(s, ids.last()))
    }
}

/// The merged call tree of a set of intervals: sorted by start, split by
/// thread, built per thread, and merged.
pub open spec fn flamegraph_of(items: Seq<EventItem>) -> Map<LabelPath, int> {
    let s = sorted_by_start(items);
    merge_threads(s, thread_ids(s))
}

pub open spec fn all_wf(s: Seq<EventItem>) -> bool {
    forall|k: int| 0 <= k < s.len() ==> (#[trigger] s[k]).wf()
}

/// The totals of the trees in `st`, summed.
pub open spec fn stacks_total(st: Seq<ThreadStack>) -> int
    decreases st.len(),
{
    if st.len() == 0 {
        0
    } else {
        stacks_total(st.drop_last()) + st.last().tree.total()
    }
}

proof fn lemma_total_length_insert(s: Seq<EventItem>, e: EventItem)
    ensures
        total_length(insert_by_start(s, e)) == total_length(s) + e.length(),
    decreases s.len(),
{
    if s.len() == 0 {
        assert(seq![e].drop_last() =~= s);
    } else if s.last().start_ts <= e.start_ts {
        assert(s.push(e).drop_last() =~= s);
    } else {
        lemma_total_length_insert(s.drop_last(), e);
        let r = insert_by_start(s.drop_last(), e);
        assert(r.push(s.last()).drop_last() =~= r);
    }
}

proof fn lemma_total_length_sorted(s: Seq<EventItem>)
    ensures
        total_length(sorted_by_start(s)) == total_length(s),
    decreases s.len(),
{
    if s.len() > 0 {
        lemma_total_length_sorted(s.drop_last());
        lemma_total_length_insert(sorted_by_start(s.drop_last()), s.last());
    }
}

proof fn lemma_insert_wf(s: Seq<EventItem>, e: EventItem)
    requires
        all_wf(s),
        e.wf(),
    ensures
        all_wf(insert_by_start(s, e)),
    decreases s.len(),
{
    if s.len() > 0 && s.last().start_ts > e.start_ts {
        lemma_insert_wf(s.drop_last(), e);
        assert(s.last().wf());
    }
}

proof fn lemma_sorted_wf(s: Seq<EventItem>)
    requires
        all_wf(s),
    ensures
        all_wf(sorted_by_start(s)),
    decreases s.len(),
{
    if s.len() > 0 {
        lemma_sorted_wf(s.drop_last());
        assert(s.last().wf());
        lemma_insert_wf(sorted_by_start(s.drop_last()), s.last());
    }
}

proof fn lemma_prefix_total(s: Seq<EventItem>, k: int, n: int)
    requires
        all_wf(s),
        0 <= k <= n <= s.len(),
    ensures
        total_length(s.take(k)) <= total_length(s.take(n)),
    decreases n - k,
{
    if k < n {
        lemma_prefix_total(s, k, n - 1);
        assert(s.take(n).drop_last() =~= s.take(n - 1));
        assert(s[n - 1].wf());
    }
}

proof fn lemma_of_thread_total(s: Seq<EventItem>, tid: u32)
    requires
        all_wf(s),
    ensures
        0 <= total_length(of_thread(s, tid)) <= total_length(s),
    decreases s.len(),
{
    if s.len() > 0 {
        lemma_of_thread_total(s.drop_last(), tid);
        assert(s.last().wf());
        let r = of_thread(s.drop_last(), tid);
        assert(r.push(s.last()).drop_last() =~= r);
    }
}

proof fn lemma_ids_grow(s: Seq<EventItem>, tid: u32)
    requires
        s.len() > 0,
        thread_ids(s.drop_last()).contains(tid),
    ensures
        thread_ids(s).contains(tid),
{
    if !thread_ids(s.drop_last()).contains(s.last().thread_id) {
        let i = choose|i: int| 0 <= i < thread_ids(s.drop_last()).len() && thread_ids(s.drop_last())[i] == tid;
        assert(thread_ids(s)[i] == tid);
    }
}

proof fn lemma_absent_thread(s: Seq<EventItem>, tid: u32)
    requires
        !thread_ids(s).contains(tid),
    ensures
        of_thread(s, tid) == Seq::<EventItem>::empty(),
    decreases s.len(),
{
    if s.len() > 0 {
        if thread_ids(s.drop_last()).contains(tid) {
            lemma_ids_grow(s, tid);
        }
        if s.last().thread_id == tid {
            if !thread_ids(s.drop_last()).contains(tid) {
                assert(thread_ids(s).last() == tid);
            }
        }
        lemma_absent_thread(s.drop_last(), tid);
    }
}

proof fn lemma_stacks_total_update(st: Seq<ThreadStack>, t: int, x: ThreadStack)
    requires
        0 <= t < st.len(),
    ensures
        stacks_total(st.update(t, x)) == stacks_total(st) - st[t].tree.total() + x.tree.total(),
    decreases st.len(),
{
    if t < st.len() - 1 {
        lemma_stacks_total_update(st.drop_last(), t, x);
        assert(st.update(t, x).drop_last() =~= st.drop_last().update(t, x));
    } else {
        assert(st.update(t, x).drop_last() =~= st.drop_last());
    }
}

proof fn lemma_stacks_total_prefix(st: Seq<ThreadStack>, m: int)
    requires
        0 <= m <= st.len(),
    ensures
        stacks_total(st.take(m)) <= stacks_total(st),
    decreases st.len() - m,
{
    if m < st.len() {
        lemma_stacks_total_prefix(st, m + 1);
        assert(st.take(m + 1).drop_last() =~= st.take(m));
        lemma_total_nonneg(st[m].tree, st[m].tree.size());
    } else {
        assert(st.take(m) =~= st);
    }
}

proof fn lemma_new_stack_view(ts: ThreadStack)
    requires
        ts.wf(),
        ts.current_item == 0,
        ts.tree.size() == 1,
    ensures
        ts@ == initial_state(),
{
    lemma_path_len(ts.tree, 0);
    assert(ts.tree.has_path(Seq::empty()));
    assert forall|q: LabelPath| ts.tree.has_path(q) implies q == Seq::<Seq<char>>::empty() by {
        let j = choose|j: int| 0 <= j < ts.tree.size() && #[trigger] ts.tree.path(j) == q;
        assert(j == 0);
    }
    let e: LabelPath = Seq::empty();
    assert(ts.tree.path(0) == e);
    assert(ts.tree.duration_sum(e, 0) == 0);
    assert(ts.tree.duration_sum(e, 1) == 0);
    crate::thread_stack::lemma_range_at(ts, 0);
    assert(ts@.durations =~= initial_state().durations);
    assert(ts@.ranges =~= initial_state().ranges);
}

proof fn lemma_new_tree_view(t: CallTree)
    requires
        t.wf(),
        t.size() == 1,
    ensures
        t@ == root_view(),
{
    lemma_path_len(t, 0);
    assert(t.has_path(Seq::empty()));
    assert forall|q: LabelPath| t.has_path(q) implies q == Seq::<Seq<char>>::empty() by {
        let j = choose|j: int| 0 <= j < t.size() && #[trigger] t.path(j) == q;
        assert(j == 0);
    }
    let e: LabelPath = Seq::empty();
    assert(t.path(0) == e);
    assert(t.duration_sum(e, 0) == 0);
    assert(t.duration_sum(e, 1) == 0);
    assert(t@ =~= root_view());
}

/// The interval that event `e` gives, with label getter `g`: its label,
/// thread, start and end. Events without a timestamp, a duration, a thread id
/// or a label give none, and so do events whose end does not fit in 64 bits.
pub open spec fn event_interval(g: LabelGetter, e: EventRecord) -> Option<(Seq<char>, u32, u64, u64)> {
    match (e.field("timestamp"@), e.field("duration"@), e.field("thread_id"@), g.resolved_label(e)) {
        (
            Some(FieldValue::U64(ts)),
            Some(FieldValue::U64(d)),
            Some(FieldValue::U32(tid)),
            Some((_, l)),
        ) => if ts + d <= u64::MAX {
            Some((l, tid, ts, (ts + d) as u64))
        } else {
            None
        },
        _ => None,
    }
}

/// Collects intervals and turns them into one merged call tree.
pub struct FlamegraphConverter {
    pub items: Vec<EventItem>,
    pub label_getter: LabelGetter,
}

impl FlamegraphConverter {
    pub open spec fn wf(self) -> bool {
        all_wf(self.items@)
    }

    pub fn new(label_getter: LabelGetter) -> (r: FlamegraphConverter)
        ensures
            r.wf(),
            r.items@ == Seq::<EventItem>::empty(),
            r.label_getter == label_getter,
    {
        FlamegraphConverter { items: Vec::new(), label_getter }
    }

    /// Takes one trace event: it is kept as an interval when it has everything
    /// an interval needs, and dropped otherwise. Either way the label getter
    /// sees it.
    pub fn process_event(&mut self, event: &EventRecord)
        requires
            old(self).wf(),
        ensures
            final(self).wf(),
            final(self).label_getter.mapping_event_id == crate::label_mapping::next_mapping_id(
                old(self).label_getter.mapping_event_id,
                *event,
            ),
            final(self).label_getter.label_fields == old(self).label_getter.label_fields,
            forall|id: u64| #[trigger]
                final(self).label_getter.label_map.lookup(id) == old(
                    self,
                ).label_getter.lookup_after(*event, id),
            match event_interval(old(self).label_getter, *event) {
                Some((l, tid, start, stop)) => {
                    &&& final(self).items@.len() == old(self).items@.len() + 1
                    &&& final(self).items@.drop_last() == old(self).items@
                    &&& final(self).items@.last().label@ == l
                    &&& final(self).items@.last().thread_id == tid
                    &&& final(self).items@.last().start_ts == start
                    &&& final(self).items@.last().stop_ts == stop
                },
                None => final(self).items@ == old(self).items@,
            },
    {
        let timestamp = event.get_value_u64("timestamp");
        let duration = event.get_value_u64("duration");
        let thread_id = event.get_value_u32("thread_id");
        let (_, label) = self.label_getter.get_label(event);
        match (timestamp, duration, thread_id, label) {
            (Some(ts), Some(d), Some(tid), Some(label)) => {
                match ts.checked_add(d) {
                    Some(stop) => {
                        let item = EventItem { label, thread_id: tid, start_ts: ts, stop_ts: stop };
                        self.items.push(item);
                        assert(self.items@.drop_last() =~= old(self).items@);
                        assert forall|k: int| 0 <= k < self.items@.len() implies (#[trigger] self.items@[k]).wf() by {
                            if k < old(self).items@.len() {
                                assert(self.items@[k] == old(self).items@[k]);
                            }
                        }
                    },
                    None => {},
                }
            },
            _ => {},
        }
    }

    /// Folds the whole of `stack` into `super_stack`: every path of `stack` is
    /// found or created in `super_stack`, and its duration is added there.
    pub fn merge_stacks(super_stack: &mut CallTree, stack: &CallTree)
        requires
            old(super_stack).wf(),
            stack.wf(),
            old(super_stack).total() + stack.total() <= u64::MAX,
        ensures
            final(super_stack).wf(),
            final(super_stack).total() == old(super_stack).total() + stack.total(),
            forall|q: LabelPath| #[trigger]
                final(super_stack).has_path(q) == (old(super_stack).has_path(q) || stack.has_path(q)),
            forall|q: LabelPath| #[trigger]
                final(super_stack).duration_at(q) == old(super_stack).duration_at(q)
                    + stack.duration_at(q),
            final(super_stack)@ == merged(old(super_stack)@, stack@),
    {
        let ghost s0 = *super_stack;
        let mut corr: Vec<usize> = Vec::new();
        corr.push(0);
        let mut i: usize = 1;
        proof {
            lemma_path_len(s0, 0);
            lemma_path_len(*stack, 0);
            assert(stack.total_sum(1) == stack.total_sum(0) + 0);
            assert forall|q: LabelPath| #[trigger] stack.duration_sum(q, 1) == 0 by {
                assert(stack.duration_sum(q, 0) == 0);
            }
            assert forall|q: LabelPath| #[trigger] super_stack.has_path(q) == (s0.has_path(q) || exists|
                j: int,
            | 0 <= j < 1 && #[trigger] stack.path(j) == q) by {
                if q == stack.path(0) {
                    assert(s0.path(0) == q);
                }
            }
        }
        while i < stack.nodes.len()
            invariant
                s0.wf(),
                stack.wf(),
                s0.total() + stack.total() <= u64::MAX,
                super_stack.wf(),
                1 <= i <= stack.size(),
                corr@.len() == i,
                forall|j: int|
                    0 <= j < i ==> #[trigger] corr@[j] < super_stack.size() && super_stack.path(
                        corr@[j] as int,
                    ) == stack.path(j),
                super_stack.total() == s0.total() + stack.total_sum(i as int),
                forall|q: LabelPath| #[trigger]
                    super_stack.has_path(q) == (s0.has_path(q) || exists|j: int|
                        0 <= j < i && #[trigger] stack.path(j) == q),
                forall|q: LabelPath| #[trigger]
                    super_stack.duration_at(q) == s0.duration_at(q) + stack.duration_sum(q, i as int),
            decreases stack.size() - i,
        {
            let ghost t0 = *super_stack;
            let ghost target = stack.path(i as int);
            proof {
                lemma_path_step(*stack, i as int);
            }
            let p = match stack.nodes[i].parent {
                Some(p) => p,
                None => 0,
            };
            let sp = corr[p];
            assert(t0.path(sp as int) == stack.path(p as int));
            let item = &stack.nodes[i];
            let c = match super_stack.find_child(sp, &item.label) {
                Some(c) => {
                    proof {
                        lemma_path_step(t0, c as int);
                    }
                    c
                },
                None => super_stack.add_child(sp, item.label.clone(), item.last_start, item.last_stop),
            };
            let ghost t1 = *super_stack;
            assert(t1.path(c as int) == target);
            proof {
                lemma_path_len(t1, c as int);
                lemma_total_prefix(*stack, i as int + 1, stack.size());
                lemma_total_nonneg(*stack, i as int);
                assert forall|q: LabelPath| #[trigger] t1.has_path(q) == (s0.has_path(q) || exists|
                    j: int,
                | 0 <= j < i + 1 && #[trigger] stack.path(j) == q) by {
                    if exists|j: int| 0 <= j < i + 1 && #[trigger] stack.path(j) == q {
                        let j = choose|j: int| 0 <= j < i + 1 && #[trigger] stack.path(j) == q;
                        if j < i {
                            assert(t0.path(corr@[j] as int) == q);
                            assert(t1.path(corr@[j] as int) == q);
                        } else {
                            assert(t1.path(c as int) == q);
                        }
                    }
                    if t1.has_path(q) && !t0.has_path(q) {
                        assert(stack.path(i as int) == q);
                    }
                }
            }
            super_stack.add_duration(c, item.duration);
            corr.push(c);
            i = i + 1;
            proof {
                let t2 = *super_stack;
                assert forall|j: int|
                    0 <= j < i implies #[trigger] corr@[j] < t2.size() && t2.path(corr@[j] as int)
                    == stack.path(j) by {
                    if j < i - 1 {
                        assert(t0.path(corr@[j] as int) == stack.path(j));
                        assert(t1.path(corr@[j] as int) == stack.path(j));
                    }
                }
            }
        }
        proof {
            let t = *super_stack;
            assert forall|q: LabelPath| #[trigger] t.has_path(q) == (s0.has_path(q) || stack.has_path(
                q,
            )) by {}
            assert(t@ =~= merged(s0@, stack@)) by {
                assert forall|q: LabelPath| #[trigger] t@.contains_key(q) implies t@[q] == merged(
                    s0@,
                    stack@,
                )[q] by {
                    if !s0.has_path(q) {
                        lemma_absent_path(s0, q);
                    }
                    if !stack.has_path(q) {
                        lemma_absent_path(*stack, q);
                    }
                }
            }
        }
    }

    /// Sorts the collected intervals by start, builds each thread's tree from
    /// its own intervals in that order, and merges every thread's tree into a
    /// fresh root, which is returned.
    pub fn generate_flamegraph(&mut self) -> (r: CallTree)
        requires
            old(self).wf(),
            total_length(old(self).items@) <= u64::MAX,
        ensures
            r.wf(),
            r@ == flamegraph_of(old(self).items@),
            final(self).items@ == sorted_by_start(old(self).items@),
            final(self).wf(),
    {
        let sorted = sort_by_start(&self.items);
        let ghost s = sorted@;
        proof {
            lemma_sorted_wf(self.items@);
            lemma_total_length_sorted(self.items@);
            assert(s.take(0) =~= Seq::<EventItem>::empty());
        }
        let mut ids: Vec<u32> = Vec::new();
        let mut stacks: Vec<ThreadStack> = Vec::new();
        let mut k: usize = 0;
        while k < sorted.len()
            invariant
                sorted@ == s,
                all_wf(s),
                total_length(s) <= u64::MAX,
                k <= s.len(),
                ids@ == thread_ids(s.take(k as int)),
                ids@.no_duplicates(),
                stacks@.len() == ids@.len(),
                forall|t: int|
                    0 <= t < stacks@.len() ==> {
                        &&& (#[trigger] stacks@[t]).wf()
                        &&& stacks@[t]@ == build(of_thread(s.take(k as int), ids@[t]))
                        &&& stacks@[t].tree.total() == total_length(
                            of_thread(s.take(k as int), ids@[t]),
                        )
                    },
                stacks_total(stacks@) == total_length(s.take(k as int)),
            decreases s.len() - k,
        {
            let e = &sorted[k];
            let ghost pre = s.take(k as int);
            let ghost post = s.take(k as int + 1);
            assert(post.drop_last() =~= pre);
            assert(post.last() == *e);
            let mut t: usize = 0;
            while t < ids.len() && ids[t] != e.thread_id
                invariant
                    t <= ids@.len(),
                    forall|u: int| 0 <= u < t ==> ids@[u] != e.thread_id,
                decreases ids@.len() - t,
            {
                t = t + 1;
            }
            let ghost st_before = stacks@;
            if t == ids.len() {
                proof {
                    lemma_absent_thread(pre, e.thread_id);
                }
                let fresh = ThreadStack::new();
                proof {
                    lemma_new_stack_view(fresh);
                }
                ids.push(e.thread_id);
                stacks.push(fresh);
                proof {
                    assert(stacks@.drop_last() =~= stacks@.take(t as int));
                    assert(stacks@.take(t as int) =~= stacks@.drop_last());
                    assert(stacks@.drop_last() =~= st_before);
                    assert(stacks_total(stacks@) == stacks_total(stacks@.drop_last()) + 0);
                }
            }
            let ghost st0 = stacks@;
            let ghost ids1 = ids@;
            proof {
                assert(ids1 == thread_ids(post));
                assert(ids@[t as int] == e.thread_id);
                assert(stacks@[t as int]@ == build(of_thread(pre, e.thread_id)));
                assert(of_thread(post, e.thread_id) == of_thread(pre, e.thread_id).push(*e));
                lemma_of_thread_total(pre, e.thread_id);
                lemma_prefix_total(s, k as int + 1, s.len() as int);
                assert(s.take(s.len() as int) =~= s);
                assert(e.wf());
            }
            stacks[t].add_item(e);
            proof {
                lemma_stacks_total_update(st0, t as int, stacks@[t as int]);
                assert(stacks@ =~= st0.update(t as int, stacks@[t as int]));
                assert(stacks_total(st0) == total_length(pre));
                assert(total_length(post) == total_length(pre) + e.length());
                assert(of_thread(post, e.thread_id).drop_last() =~= of_thread(pre, e.thread_id));
                assert forall|u: int|
                    0 <= u < stacks@.len() implies {
                        &&& (#[trigger] stacks@[u]).wf()
                        &&& stacks@[u]@ == build(of_thread(post, ids@[u]))
                        &&& stacks@[u].tree.total() == total_length(of_thread(post, ids@[u]))
                    } by {
                    if u != t {
                        assert(ids@[u] != e.thread_id);
                        assert(stacks@[u] == st0[u]);
                    }
                }
            }
            k = k + 1;
        }
        proof {
            assert(s.take(s.len() as int) =~= s);
        }
        let mut root = CallTree::new();
        proof {
            lemma_new_tree_view(root);
            assert(stacks@.take(0) =~= Seq::<ThreadStack>::empty());
            assert(ids@.take(0) =~= Seq::<u32>::empty());
        }
        let mut m: usize = 0;
        while m < stacks.len()
            invariant
                sorted@ == s,
                total_length(s) <= u64::MAX,
                stacks_total(stacks@) == total_length(s),
                m <= stacks@.len(),
                stacks@.len() == ids@.len(),
                forall|t: int|
                    0 <= t < stacks@.len() ==> {
                        &&& (#[trigger] stacks@[t]).wf()
                        &&& stacks@[t]@ == build(of_thread(s, ids@[t]))
                    },
                root.wf(),
                root@ == merge_threads(s, ids@.take(m as int)),
                root.total() == stacks_total(stacks@.take(m as int)),
            decreases stacks@.len() - m,
        {
            proof {
                lemma_stacks_total_prefix(stacks@, m as int + 1);
                assert(stacks@.take(m as int + 1).drop_last() =~= stacks@.take(m as int));
                assert(ids@.take(m as int + 1).drop_last() =~= ids@.take(m as int));
                assert(stacks@[m as int].wf());
            }
            FlamegraphConverter::merge_stacks(&mut root, &stacks[m].tree);
            m = m + 1;
        }
        proof {
            assert(ids@.take(m as int) =~= ids@);
        }
        self.items = sorted;
        proof {
            lemma_sorted_wf(old(self).items@);
        }
        root
    }
}

} // verus!
