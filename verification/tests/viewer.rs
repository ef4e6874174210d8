use ser_hex::capture::Capture;
use ser_hex::trace::{Action, Trace, TreeSpan};
use ser_hex::viewer::{FullAction, LoadError, Trace as ViewTrace};

fn span(name: &str, actions: Vec<Action<TreeSpan>>) -> Action<TreeSpan> {
    Action::Span(TreeSpan { name: name.to_string(), actions })
}

fn nested_trace() -> Trace {
    Trace {
        data: vec![1, 2, 3, 4, 5, 5],
        start_index: 0,
        root: span(
            "root",
            vec![span(
                "read_stuff",
                vec![
                    Action::Read(1),
                    span("read_nested_stuff", vec![Action::Read(4)]),
                    Action::Seek(4),
                    Action::Read(1),
                ],
            )],
        ),
    }
}

fn names_at(view: &ViewTrace, address: usize) -> Vec<String> {
    let mut names: Vec<String> = view
        .interval_tree
        .query_point(address)
        .into_iter()
        .map(|i| view.interval_tree.record(i).name.clone())
        .collect();
    names.sort();
    names
}

#[test]
fn point_query_returns_the_nested_span() {
    let view = ViewTrace::load(nested_trace()).unwrap();
    let names = names_at(&view, 1);
    assert_eq!(
        names,
        vec!["read_nested_stuff", "read_nested_stuff", "read_stuff", "root"]
    );
    let hits = view.interval_tree.query_point(1);
    let innermost: Vec<(usize, usize)> = hits
        .iter()
        .map(|&i| view.interval_tree.record(i))
        .filter(|r| r.name == "read_nested_stuff")
        .map(|r| (r.range.start, r.range.end))
        .collect();
    assert_eq!(innermost, vec![(1, 5), (1, 5)]);
}

#[test]
fn point_query_outside_every_range_is_empty() {
    let view = ViewTrace::load(nested_trace()).unwrap();
    assert!(view.interval_tree.query_point(5).is_empty());
    assert!(view.interval_tree.query_point(100).is_empty());
}

#[test]
fn range_query_finds_each_overlapping_record_once() {
    let view = ViewTrace::load(nested_trace()).unwrap();
    let mut hits = view.interval_tree.query(0..1);
    hits.sort();
    let found: Vec<(usize, usize, String)> = hits
        .iter()
        .map(|&i| view.interval_tree.record(i))
        .map(|r| (r.range.start, r.range.end, r.name.clone()))
        .collect();
    assert_eq!(
        found,
        vec![
            (0, 1, "read_stuff".to_string()),
            (0, 5, "read_stuff".to_string()),
            (0, 5, "root".to_string()),
        ]
    );
    let mut all = view.interval_tree.query(0..6);
    all.sort();
    assert_eq!(all, vec![0, 1, 2, 3, 4, 5]);
}

#[test]
fn records_come_children_first_with_their_paths() {
    let view = ViewTrace::load(nested_trace()).unwrap();
    let index = &view.interval_tree;
    assert_eq!(index.len(), 6);
    let listed: Vec<(usize, usize, String, usize)> = (0..index.len())
        .map(|i| index.record(i))
        .map(|r| (r.range.start, r.range.end, r.name.clone(), r.path.len()))
        .collect();
    assert_eq!(
        listed,
        vec![
            (0, 1, "read_stuff".to_string(), 2),
            (1, 5, "read_nested_stuff".to_string(), 3),
            (1, 5, "read_nested_stuff".to_string(), 2),
            (4, 5, "read_stuff".to_string(), 2),
            (0, 5, "read_stuff".to_string(), 1),
            (0, 5, "root".to_string(), 0),
        ]
    );
}

#[test]
fn full_tree_carries_the_accumulated_offsets() {
    let view = ViewTrace::load(nested_trace()).unwrap();
    let FullAction::Span(root) = &view.full_tree else {
        panic!("root is not a span");
    };
    let FullAction::Span(outer) = &root.actions[0] else {
        panic!("first action is not a span");
    };
    assert_eq!(outer.name, "read_stuff");
    assert!(matches!(&outer.actions[0], FullAction::Read(r) if *r == (0..1)));
    assert!(matches!(&outer.actions[2], FullAction::Seek(5, 4)));
    assert!(matches!(&outer.actions[3], FullAction::Read(r) if *r == (4..5)));
    let FullAction::Span(inner) = &outer.actions[1] else {
        panic!("second action is not a span");
    };
    assert!(matches!(&inner.actions[0], FullAction::Read(r) if *r == (1..5)));
}

#[test]
fn a_tree_that_leaves_its_data_is_refused() {
    let trace = Trace {
        data: vec![1, 2, 3],
        start_index: 0,
        root: span("root", vec![Action::Read(2), Action::Read(2)]),
    };
    assert_eq!(ViewTrace::load(trace).err(), Some(LoadError::OutsideData));
    let seek = Trace {
        data: vec![1, 2, 3],
        start_index: 0,
        root: span("root", vec![Action::Seek(4)]),
    };
    assert_eq!(ViewTrace::load(seek).err(), Some(LoadError::OutsideData));
    let exact = Trace {
        data: vec![1, 2, 3],
        start_index: 0,
        root: span("root", vec![Action::Read(3), Action::Seek(0), Action::Read(3)]),
    };
    assert!(ViewTrace::load(exact).is_ok());
}

#[test]
fn the_trail_of_a_record_leads_through_its_spans() {
    let view = ViewTrace::load(nested_trace()).unwrap();
    let index = &view.interval_tree;
    let inner = (0..index.len())
        .map(|i| index.record(i))
        .find(|r| r.name == "read_nested_stuff" && r.path.len() == 3)
        .expect("the nested read has a record");
    let trail = view.full_tree.trail(&inner.path).expect("the path leads to the read");
    let names: Vec<String> = trail
        .iter()
        .map(|a| match a {
            FullAction::Span(s) => s.name.clone(),
            FullAction::Read(r) => format!("read {}", r.len()),
            FullAction::Seek(from, to) => format!("seek {} => {}", from, to),
        })
        .collect();
    assert_eq!(names, vec!["root", "read_stuff", "read_nested_stuff", "read 4"]);
    for i in 0..index.len() {
        assert!(view.full_tree.trail(&index.record(i).path).is_some());
    }
    let mut nowhere = inner.path.copy();
    nowhere.push(1, 0);
    assert!(view.full_tree.trail(&nowhere).is_none());
}

#[test]
fn a_captured_trace_is_indexed_by_its_spans() {
    let stream = [1u8, 2, 3, 4, 5, 6];
    let mut capture = Capture::new(0);
    let root = capture.enter_span("root");
    let outer = capture.enter_span("read_stuff");
    capture.read_action(&stream[0..1], 1);
    let nested = capture.enter_span("read_nested_stuff");
    capture.read_action(&stream[1..5], 4);
    capture.exit_span(nested);
    capture.seek_action(4);
    capture.read_action(&stream[4..5], 1);
    capture.exit_span(outer);
    capture.exit_span(root);
    let view = ViewTrace::load(capture.finish()).unwrap();
    assert_eq!(view.data, vec![1, 2, 3, 4, 5, 5]);
    let names = names_at(&view, 1);
    assert!(names.iter().any(|name| name == "read_nested_stuff"));
    assert_eq!(
        names_at(&view, 4),
        vec![
            "read_nested_stuff",
            "read_nested_stuff",
            "read_stuff",
            "read_stuff",
            "root"
        ]
    );
    assert_eq!(names_at(&view, 0), vec!["read_stuff", "read_stuff", "root"]);
}
