use ser_hex::path::Path;
use ser_hex::trace::{Action, Trace, TreeSpan};
use ser_hex::tracer::{StackFrame, SymbolCache, Tracer};
use ser_hex::tree::{TraceNode, TraceTree};

fn span(name: &str, actions: Vec<Action<TreeSpan>>) -> Action<TreeSpan> {
    Action::Span(TreeSpan { name: name.to_string(), actions })
}

fn sample(start_index: usize) -> Trace {
    Trace {
        data: vec![1, 2, 3, 4, 5, 1],
        start_index,
        root: span(
            "root",
            vec![
                span(
                    "read_stuff",
                    vec![
                        Action::Read(1),
                        span("read_nested_stuff", vec![Action::Read(4)]),
                        Action::Seek(0),
                        Action::Read(1),
                    ],
                ),
                span("empty", vec![]),
            ],
        ),
    }
}

fn at(steps: &[(usize, usize)]) -> Path {
    let mut path = Path::new();
    for (max, n) in steps {
        path.push(*max, *n);
    }
    path
}

fn check_nesting(node: &TraceNode) {
    if let (Some(first), Some(last)) = (node.children.first(), node.children.last()) {
        assert_eq!(node.start, first.start);
        assert_eq!(node.end, last.end);
    }
    node.children.iter().for_each(check_nesting);
}

#[test]
fn every_node_gets_its_range_by_offset_accumulation() {
    let trace = sample(0);
    let tree = TraceTree::new(&trace);
    let root = &tree.root;
    assert_eq!((root.start, root.end), (0, 1));
    let outer = &root.children[0];
    assert_eq!((outer.start, outer.end), (0, 1));
    let ranges: Vec<(usize, usize)> = outer.children.iter().map(|n| (n.start, n.end)).collect();
    assert_eq!(ranges, vec![(0, 1), (1, 5), (5, 0), (0, 1)]);
    let nested = &outer.children[1];
    assert_eq!((nested.children[0].start, nested.children[0].end), (1, 5));
    let empty = &root.children[1];
    assert_eq!((empty.start, empty.end), (1, 1));
    assert!(empty.children.is_empty());
}

#[test]
fn the_walk_begins_where_the_capture_began() {
    let trace = sample(10);
    let tree = TraceTree::new(&trace);
    assert_eq!((tree.root.start, tree.root.end), (10, 1));
    let outer = &tree.root.children[0];
    let ranges: Vec<(usize, usize)> = outer.children.iter().map(|n| (n.start, n.end)).collect();
    assert_eq!(ranges, vec![(10, 11), (11, 15), (15, 0), (0, 1)]);
}

#[test]
fn a_span_reaches_from_its_first_child_to_its_last() {
    for start in [0, 3, 100] {
        let trace = sample(start);
        let tree = TraceTree::new(&trace);
        check_nesting(&tree.root);
    }
}

#[test]
fn nodes_carry_the_path_that_leads_to_them() {
    let trace = sample(0);
    let tree = TraceTree::new(&trace);
    assert!(tree.root.identifier.same(&Path::new()));
    let outer = &tree.root.children[0];
    assert!(outer.identifier.same(&at(&[(2, 0)])));
    assert!(outer.children[1].identifier.same(&at(&[(2, 0), (4, 1)])));
    assert!(outer.children[1].children[0]
        .identifier
        .same(&at(&[(2, 0), (4, 1), (1, 0)])));
    assert!(tree.root.children[1].identifier.same(&at(&[(2, 1)])));
}

#[test]
fn a_node_is_found_by_its_identifier() {
    fn check<'a>(tree: &'a TraceTree<'a>, node: &TraceNode<'a>) {
        let found = tree.get(&node.identifier).expect("every node is found");
        assert!(found.identifier.same(&node.identifier));
        assert_eq!((found.start, found.end), (node.start, node.end));
        for child in &node.children {
            check(tree, child);
        }
    }
    let trace = sample(0);
    let tree = TraceTree::new(&trace);
    check(&tree, &tree.root);
    assert!(tree.get(&at(&[(2, 2)])).is_none());
    assert!(tree.get(&at(&[(2, 1), (1, 0)])).is_none());
    assert!(tree.get(&at(&[(2, 0), (4, 0), (1, 0)])).is_none());
}

#[test]
fn only_the_children_of_open_nodes_are_shown() {
    let trace = sample(0);
    let tree = TraceTree::new(&trace);
    let shown = |open: &[Path]| -> Vec<(usize, bool, usize)> {
        let open: Vec<Path> = open.iter().map(|p| p.copy()).collect();
        tree.get_nodes(&open)
            .iter()
            .map(|n| (n.depth, n.has_children, n.identifier.len()))
            .collect()
    };
    assert_eq!(shown(&[]), vec![(0, true, 0)]);
    assert_eq!(
        shown(&[Path::new()]),
        vec![(0, true, 0), (1, true, 1), (1, false, 1)]
    );
    assert_eq!(
        shown(&[Path::new(), at(&[(2, 0)])]),
        vec![
            (0, true, 0),
            (1, true, 1),
            (2, false, 2),
            (2, true, 2),
            (2, false, 2),
            (2, false, 2),
            (1, false, 1),
        ]
    );
    assert_eq!(shown(&[at(&[(2, 0)])]), vec![(0, true, 0)]);
    assert!(tree.get_nodes(&Vec::new()).iter().all(|n| n.height == 1));
}

#[test]
fn a_tree_that_cannot_be_counted_is_not_laid_out() {
    let trace = Trace {
        data: vec![],
        start_index: 1,
        root: span("root", vec![Action::Read(usize::MAX)]),
    };
    assert!(TraceTree::build(&trace).is_none());
    let fits = Trace {
        data: vec![],
        start_index: 1,
        root: span("root", vec![Action::Read(usize::MAX - 1), Action::Seek(0)]),
    };
    let tree = TraceTree::build(&fits).expect("every offset can be counted");
    assert_eq!((tree.root.start, tree.root.end), (1, 0));
    assert_eq!(fits.root.walk(1, usize::MAX), Some(0));
    assert_eq!(fits.root.walk(1, usize::MAX - 1), None);
}

#[test]
fn shown_lines_come_in_the_order_of_their_identifiers() {
    fn all(node: &TraceNode, out: &mut Vec<Path>) {
        out.push(node.identifier.copy());
        node.children.iter().for_each(|c| all(c, out));
    }
    let trace = sample(0);
    let tree = TraceTree::new(&trace);
    let mut open = Vec::new();
    all(&tree.root, &mut open);
    let shown = tree.get_nodes(&open);
    assert_eq!(shown.len(), open.len());
    for pair in shown.windows(2) {
        assert!(pair[0].identifier.precedes(&pair[1].identifier));
        assert!(pair[0].identifier < pair[1].identifier);
    }
    for (line, identifier) in shown.iter().zip(&open) {
        assert!(line.identifier.same(identifier));
    }
}

#[test]
fn the_bytes_of_a_node_are_those_in_its_range() {
    let trace = sample(0);
    let tree = TraceTree::new(&trace);
    let outer = &tree.root.children[0];
    assert_eq!(tree.bytes_of(&outer.children[0]), Some(&[1u8][..]));
    assert_eq!(tree.bytes_of(&outer.children[1]), Some(&[2u8, 3, 4, 5][..]));
    assert_eq!(tree.bytes_of(&outer.children[2]), None);
    assert_eq!(tree.bytes_of(&tree.root.children[1]), Some(&[][..]));
    let late = sample(4);
    let tree = TraceTree::new(&late);
    assert_eq!(tree.bytes_of(&tree.root.children[0].children[0]), Some(&[5u8][..]));
    assert_eq!(tree.bytes_of(&tree.root.children[0].children[1]), None);
}

#[test]
fn without_a_seek_the_reads_lead_through_the_data() {
    fn reads(node: &TraceNode, out: &mut Vec<(usize, usize)>) {
        if let Action::Read(_) = node.action {
            out.push((node.start, node.end));
        }
        node.children.iter().for_each(|c| reads(c, out));
    }
    let frame = |id: u64| StackFrame { id, ip: id };
    let mut tracer = Tracer::new();
    tracer.record(vec![frame(3), frame(1)], &[10]);
    tracer.record(vec![frame(3), frame(1)], &[11, 12]);
    tracer.record(vec![frame(1)], &[13, 14, 15]);
    tracer.record(vec![frame(4), frame(2)], &[]);
    tracer.record(vec![frame(4), frame(2)], &[16]);
    let mut cache = SymbolCache::new();
    let trace = tracer.trace(&mut cache);
    let tree = TraceTree::new(&trace);
    let mut ranges = Vec::new();
    reads(&tree.root, &mut ranges);
    assert_eq!(ranges, vec![(0, 1), (1, 3), (3, 6), (6, 6), (6, 7)]);
    let bytes: Vec<u8> = ranges
        .iter()
        .flat_map(|&(start, end)| trace.data[start..end].to_vec())
        .collect();
    assert_eq!(bytes, trace.data);
    assert_eq!(trace.data, vec![10, 11, 12, 13, 14, 15, 16]);
}
