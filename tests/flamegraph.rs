use hawktracer_converter::call_tree::CallTree;
use hawktracer_converter::event::{EventRecord, FieldValue};
use hawktracer_converter::flamegraph::{sort_by_start, FlamegraphConverter};
use hawktracer_converter::label_mapping::{LabelGetter, LabelMap};
use hawktracer_converter::render::{HTMLFlameGraphWritter, DATA_OPEN, PAGE_CLOSE, PAGE_OPEN};
use hawktracer_converter::thread_stack::{EventItem, ThreadStack};

fn item(label: &str, thread_id: u32, start_ts: u64, stop_ts: u64) -> EventItem {
    EventItem { label: label.to_owned(), thread_id, start_ts, stop_ts }
}

fn event(label: &str, thread_id: u32, timestamp: u64, duration: u64) -> EventRecord {
    let mut e = EventRecord::new(10);
    e.add_field("timestamp".to_owned(), FieldValue::U64(timestamp));
    e.add_field("duration".to_owned(), FieldValue::U64(duration));
    e.add_field("thread_id".to_owned(), FieldValue::U32(thread_id));
    e.add_field("label".to_owned(), FieldValue::Str(label.to_owned()));
    e
}

fn converter() -> FlamegraphConverter {
    FlamegraphConverter::new(LabelGetter::new(
        LabelMap::new(),
        vec!["label".to_owned(), "name".to_owned()],
    ))
}

fn node_at(tree: &CallTree, path: &[&str]) -> Option<usize> {
    let mut cur = 0usize;
    for label in path {
        cur = tree.find_child(cur, &label.to_string())?;
    }
    Some(cur)
}

fn duration_at(tree: &CallTree, path: &[&str]) -> u64 {
    tree.nodes[node_at(tree, path).unwrap()].duration
}

fn child_count(tree: &CallTree, path: &[&str]) -> usize {
    tree.nodes[node_at(tree, path).unwrap()].children.len()
}

fn build(items: &[EventItem]) -> CallTree {
    let mut c = converter();
    for i in items {
        c.items.push(i.duplicate());
    }
    c.generate_flamegraph()
}

#[test]
fn nested_interval_becomes_child() {
    let tree = build(&[item("A", 1, 0, 100), item("B", 1, 10, 50)]);
    assert_eq!(child_count(&tree, &[]), 1);
    assert_eq!(duration_at(&tree, &["A"]), 100);
    assert_eq!(child_count(&tree, &["A"]), 1);
    assert_eq!(duration_at(&tree, &["A", "B"]), 40);
    assert_eq!(child_count(&tree, &["A", "B"]), 0);
    assert_eq!(tree.nodes.len(), 3);
}

#[test]
fn two_threads_merge_same_path() {
    let tree = build(&[item("main", 1, 0, 30), item("main", 2, 5, 75)]);
    assert_eq!(child_count(&tree, &[]), 1);
    assert_eq!(duration_at(&tree, &["main"]), 100);
}

#[test]
fn event_without_duration_is_dropped_and_zero_duration_is_kept() {
    let mut c = converter();
    let mut missing = EventRecord::new(10);
    missing.add_field("timestamp".to_owned(), FieldValue::U64(5));
    missing.add_field("thread_id".to_owned(), FieldValue::U32(1));
    missing.add_field("label".to_owned(), FieldValue::Str("gone".to_owned()));
    c.process_event(&missing);
    assert_eq!(c.items.len(), 0);

    c.process_event(&event("instant", 1, 7, 0));
    assert_eq!(c.items.len(), 1);
    assert_eq!(c.items[0].start_ts, 7);
    assert_eq!(c.items[0].stop_ts, 7);

    let tree = c.generate_flamegraph();
    assert!(node_at(&tree, &["gone"]).is_none());
    assert_eq!(duration_at(&tree, &["instant"]), 0);
}

#[test]
fn events_missing_fields_or_overflowing_are_dropped() {
    let mut c = converter();
    let mut no_thread = EventRecord::new(10);
    no_thread.add_field("timestamp".to_owned(), FieldValue::U64(1));
    no_thread.add_field("duration".to_owned(), FieldValue::U64(1));
    no_thread.add_field("label".to_owned(), FieldValue::Str("x".to_owned()));
    c.process_event(&no_thread);
    let mut wrong_type = event("x", 1, 1, 1);
    wrong_type.fields[2].1 = FieldValue::U64(1);
    c.process_event(&wrong_type);
    let mut no_label = EventRecord::new(10);
    no_label.add_field("timestamp".to_owned(), FieldValue::U64(1));
    no_label.add_field("duration".to_owned(), FieldValue::U64(1));
    no_label.add_field("thread_id".to_owned(), FieldValue::U32(1));
    c.process_event(&no_label);
    c.process_event(&event("late", 1, u64::MAX, 1));
    assert_eq!(c.items.len(), 0);
    c.process_event(&event("ok", 3, 10, 5));
    assert_eq!(c.items.len(), 1);
    assert_eq!(c.items[0].label, "ok");
    assert_eq!(c.items[0].thread_id, 3);
    assert_eq!(c.items[0].stop_ts, 15);
}

#[test]
fn numeric_labels_are_resolved_when_collected() {
    let mut map = LabelMap::new();
    map.add_mapping(8, "eight");
    let mut c = FlamegraphConverter::new(LabelGetter::new(map, vec!["label".to_owned()]));
    let mut e = event("unused", 1, 0, 4);
    e.fields[3].1 = FieldValue::U64(8);
    c.process_event(&e);
    assert_eq!(c.items[0].label, "eight");
}

#[test]
fn arrival_order_does_not_matter() {
    let tree = build(&[item("B", 1, 10, 50), item("A", 1, 0, 100)]);
    assert_eq!(duration_at(&tree, &["A", "B"]), 40);
    assert!(node_at(&tree, &["B"]).is_none());
}

#[test]
fn sort_is_stable_for_equal_starts() {
    let sorted = sort_by_start(&vec![
        item("c", 1, 5, 6),
        item("a", 1, 0, 100),
        item("b", 1, 0, 50),
        item("d", 1, 5, 5),
    ]);
    let labels: Vec<&str> = sorted.iter().map(|i| i.label.as_str()).collect();
    assert_eq!(labels, vec!["a", "b", "c", "d"]);

    let tree = build(&[item("A", 1, 0, 100), item("B", 1, 0, 50)]);
    assert_eq!(duration_at(&tree, &["A", "B"]), 50);
    let tree = build(&[item("B", 1, 0, 50), item("A", 1, 0, 100)]);
    assert_eq!(duration_at(&tree, &["B"]), 50);
    assert_eq!(duration_at(&tree, &["A"]), 100);
}

#[test]
fn generate_leaves_items_sorted() {
    let mut c = converter();
    c.items.push(item("late", 1, 30, 40));
    c.items.push(item("early", 1, 10, 20));
    c.generate_flamegraph();
    assert_eq!(c.items[0].label, "early");
    assert_eq!(c.items[1].label, "late");
}

#[test]
fn siblings_and_containment_follow_ranges() {
    let tree = build(&[
        item("A", 1, 0, 10),
        item("B", 1, 20, 30),
        item("C", 1, 22, 25),
        item("D", 1, 26, 40),
    ]);
    assert_eq!(child_count(&tree, &[]), 3);
    assert_eq!(duration_at(&tree, &["A"]), 10);
    assert_eq!(duration_at(&tree, &["B"]), 10);
    assert_eq!(duration_at(&tree, &["B", "C"]), 3);
    assert_eq!(duration_at(&tree, &["D"]), 14);
    assert!(node_at(&tree, &["B", "D"]).is_none());
}

#[test]
fn repeated_visits_accumulate_per_path() {
    let tree = build(&[
        item("A", 1, 0, 10),
        item("A", 1, 20, 25),
        item("A", 1, 30, 100),
        item("A", 1, 40, 50),
        item("B", 1, 60, 70),
        item("B", 1, 80, 90),
    ]);
    assert_eq!(duration_at(&tree, &["A"]), 85);
    assert_eq!(duration_at(&tree, &["A", "A"]), 10);
    assert_eq!(duration_at(&tree, &["A", "B"]), 20);
}

#[test]
fn thread_stack_places_under_nearest_container() {
    let mut s = ThreadStack::new();
    s.add_item(&item("A", 1, 0, 100));
    s.add_item(&item("B", 1, 10, 50));
    s.add_item(&item("C", 1, 20, 30));
    s.add_item(&item("D", 1, 60, 70));
    let c = s.tree.nodes[s.current_item].parent.unwrap();
    assert_eq!(s.tree.nodes[c].label, "A");
    assert_eq!(s.tree.nodes[s.current_item].label, "D");
    assert!(s.is_parent_of(0, &item("x", 1, 0, u64::MAX)));
    assert!(!s.is_parent_of(s.current_item, &item("x", 1, 59, 65)));
}

fn durations_by_path(tree: &CallTree) -> Vec<(Vec<String>, u64)> {
    let mut out = vec![];
    for i in 0..tree.nodes.len() {
        let mut path = vec![];
        let mut cur = i;
        while let Some(p) = tree.nodes[cur].parent {
            path.push(tree.nodes[cur].label.clone());
            cur = p;
        }
        path.reverse();
        out.push((path, tree.nodes[i].duration));
    }
    out.sort();
    out
}

fn thread_tree(items: &[EventItem]) -> CallTree {
    let mut s = ThreadStack::new();
    for i in items {
        s.add_item(i);
    }
    s.tree
}

#[test]
fn merge_order_does_not_change_the_tree() {
    let t1 = thread_tree(&[item("main", 1, 0, 30), item("f", 1, 5, 10)]);
    let t2 = thread_tree(&[item("main", 2, 0, 70), item("g", 2, 5, 10), item("f", 2, 20, 30)]);
    let t3 = thread_tree(&[item("io", 3, 0, 7)]);

    let mut a = CallTree::new();
    FlamegraphConverter::merge_stacks(&mut a, &t1);
    FlamegraphConverter::merge_stacks(&mut a, &t2);
    FlamegraphConverter::merge_stacks(&mut a, &t3);
    let mut b = CallTree::new();
    FlamegraphConverter::merge_stacks(&mut b, &t3);
    FlamegraphConverter::merge_stacks(&mut b, &t2);
    FlamegraphConverter::merge_stacks(&mut b, &t1);
    assert_eq!(durations_by_path(&a), durations_by_path(&b));
    assert_eq!(duration_at(&a, &["main"]), 100);
    assert_eq!(duration_at(&a, &["main", "f"]), 15);
    assert_eq!(duration_at(&a, &["main", "g"]), 5);
    assert_eq!(duration_at(&a, &["io"]), 7);
}

#[test]
fn merge_adds_durations_at_shared_paths() {
    let t1 = thread_tree(&[item("main", 1, 0, 30), item("f", 1, 5, 9)]);
    let t2 = thread_tree(&[item("main", 2, 0, 70), item("f", 2, 10, 16)]);
    let mut s = CallTree::new();
    FlamegraphConverter::merge_stacks(&mut s, &t1);
    FlamegraphConverter::merge_stacks(&mut s, &t2);
    assert_eq!(duration_at(&s, &["main", "f"]), 4 + 6);
    assert_eq!(duration_at(&s, &["main"]), 30 + 70);
    assert_eq!(s.nodes.len(), 3);
}

#[test]
fn render_writes_tree_data() {
    let tree = build(&[item("A", 1, 0, 100), item("B", 1, 10, 50)]);
    let mut w = HTMLFlameGraphWritter::new();
    w.write_stack_item(&tree, 0);
    assert_eq!(
        w.out,
        "{ name: \"A\", value: 100, children: [{ name: \"B\", value: 40, children: [] },] },"
    );
    assert!(w.is_root(&tree, 0));
    assert!(!w.is_root(&tree, 1));
}

#[test]
fn render_twice_gives_same_page() {
    let tree = build(&[
        item("main", 1, 0, 30),
        item("main", 2, 0, 70),
        item("x", 2, 1, 2),
        item("y", 1, 3, 4),
    ]);
    let mut w1 = HTMLFlameGraphWritter::new();
    w1.write_flamegraph(&tree, "css", "d3", "tip", "fg");
    let mut w2 = HTMLFlameGraphWritter::new();
    w2.write_flamegraph(&tree, "css", "d3", "tip", "fg");
    assert_eq!(w1.out, w2.out);
    assert!(w1.out.starts_with(PAGE_OPEN));
    assert!(w1.out.ends_with(PAGE_CLOSE));
    let data_start = w1.out.find(DATA_OPEN).unwrap() + DATA_OPEN.len();
    let data = &w1.out[data_start..w1.out.len() - PAGE_CLOSE.len()];
    assert!(data.starts_with("{ name: \"main\", value: 100, children: ["));
    assert!(data.contains("{ name: \"x\", value: 1, children: [] },"));
    assert!(data.contains("{ name: \"y\", value: 1, children: [] },"));
}

#[test]
fn empty_input_gives_bare_root() {
    let tree = build(&[]);
    assert_eq!(tree.nodes.len(), 1);
    let mut w = HTMLFlameGraphWritter::new();
    w.write_stack_item(&tree, 0);
    assert_eq!(w.out, "");
}
