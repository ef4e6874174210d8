use std::io::{Cursor, Read, Seek, SeekFrom};

use ser_hex::capture::Capture;
use ser_hex::trace::{Action, ReadSpan, Trace, TreeSpan};

/// A stream that records on a capture what is read from it and where it
/// is moved to.
struct Recorded<'a> {
    stream: Cursor<Vec<u8>>,
    capture: &'a mut Capture,
}

impl Recorded<'_> {
    fn read_bytes(&mut self, count: usize) -> Vec<u8> {
        let mut buf = vec![0; count];
        let size = self.stream.read(&mut buf).unwrap();
        self.capture.read_action(&buf, size);
        buf.truncate(size);
        buf
    }

    fn seek(&mut self, pos: SeekFrom) {
        let to = self.stream.seek(pos).unwrap();
        self.capture.seek_action(to as usize);
    }
}

fn span_of(action: &Action<TreeSpan>) -> &TreeSpan {
    match action {
        Action::Span(span) => span,
        other => panic!("not a span: {:?}", other),
    }
}

fn read_nested_stuff(reader: &mut Recorded) {
    let id = reader.capture.enter_span("read_nested_stuff");
    reader.read_bytes(4);
    reader.capture.exit_span(id);
}

fn read_stuff(reader: &mut Recorded) {
    let id = reader.capture.enter_span("read_stuff");
    reader.read_bytes(1);
    read_nested_stuff(reader);
    reader.seek(SeekFrom::Current(1));
    reader.read_bytes(1);
    reader.seek(SeekFrom::Current(-1));
    reader.read_bytes(1);
    reader.capture.exit_span(id);
}

fn new_reader() -> Cursor<Vec<u8>> {
    let mut reader = Cursor::new(vec![
        1, 2, 3, 4, 5, 6, 7, 8, 9, 10, 11, 12, 13, 14, 16, 17, 18, 19, 20,
    ]);
    reader.seek(SeekFrom::Start(2)).unwrap();
    reader
}

fn run_twice() -> Trace {
    let stream = new_reader();
    let mut capture = Capture::new(stream.position() as usize);
    let root = capture.enter_span("root");
    let mut reader = Recorded { stream, capture: &mut capture };
    read_stuff(&mut reader);
    read_stuff(&mut reader);
    capture.exit_span(root);
    capture.finish()
}

#[test]
fn outer_span_with_nested_span_seek_and_read() {
    let mut capture = Capture::new(0);
    let root = capture.enter_span("root");
    let mut reader = Recorded {
        stream: Cursor::new(vec![1, 2, 3, 4, 5, 6]),
        capture: &mut capture,
    };
    let outer = reader.capture.enter_span("read_stuff");
    assert_eq!(reader.read_bytes(1), vec![1]);
    let nested = reader.capture.enter_span("read_nested_stuff");
    assert_eq!(reader.read_bytes(4), vec![2, 3, 4, 5]);
    reader.capture.exit_span(nested);
    reader.seek(SeekFrom::Start(0));
    assert_eq!(reader.read_bytes(1), vec![1]);
    reader.capture.exit_span(outer);
    capture.exit_span(root);
    let trace = capture.finish();

    assert_eq!(trace.data, vec![1, 2, 3, 4, 5, 1]);
    assert_eq!(trace.start_index, 0);
    let root = span_of(&trace.root);
    assert_eq!(root.name, "root");
    assert_eq!(root.actions.len(), 1);
    let outer = span_of(&root.actions[0]);
    assert_eq!(outer.name, "read_stuff");
    assert_eq!(outer.actions.len(), 4);
    assert!(matches!(outer.actions[0], Action::Read(1)));
    let nested = span_of(&outer.actions[1]);
    assert_eq!(nested.name, "read_nested_stuff");
    assert!(matches!(nested.actions[..], [Action::Read(4)]));
    assert!(matches!(outer.actions[2], Action::Seek(0)));
    assert!(matches!(outer.actions[3], Action::Read(1)));
}

#[test]
fn a_capture_that_begins_mid_stream_keeps_its_start() {
    let trace = run_twice();
    assert_eq!(trace.start_index, 2);
    assert_eq!(
        trace.data,
        vec![3, 4, 5, 6, 7, 9, 9, 10, 11, 12, 13, 14, 17, 17]
    );
    let root = span_of(&trace.root);
    assert_eq!(root.actions.len(), 2);
    for (outer, seeks) in root.actions.iter().zip([(8, 8), (15, 15)]) {
        let outer = span_of(outer);
        assert_eq!(outer.name, "read_stuff");
        assert_eq!(outer.actions.len(), 6);
        assert!(matches!(outer.actions[0], Action::Read(1)));
        assert_eq!(span_of(&outer.actions[1]).name, "read_nested_stuff");
        assert!(matches!(outer.actions[2], Action::Seek(to) if to == seeks.0));
        assert!(matches!(outer.actions[3], Action::Read(1)));
        assert!(matches!(outer.actions[4], Action::Seek(to) if to == seeks.1));
        assert!(matches!(outer.actions[5], Action::Read(1)));
    }
}

#[test]
fn reads_tile_the_data_in_capture_order() {
    fn sizes(action: &Action<TreeSpan>, out: &mut Vec<usize>) {
        match action {
            Action::Read(n) => out.push(*n),
            Action::Seek(_) => {}
            Action::Span(span) => span.actions.iter().for_each(|a| sizes(a, out)),
        }
    }
    let trace = run_twice();
    let mut read = Vec::new();
    sizes(&trace.root, &mut read);
    assert_eq!(read, vec![1, 4, 1, 1, 1, 4, 1, 1]);
    assert_eq!(read.iter().sum::<usize>(), trace.data.len());
}

#[test]
fn a_read_at_the_end_of_the_stream_is_recorded_as_empty() {
    let mut capture = Capture::new(0);
    let root = capture.enter_span("root");
    let mut reader = Recorded { stream: Cursor::new(vec![7]), capture: &mut capture };
    assert_eq!(reader.read_bytes(4), vec![7]);
    assert_eq!(reader.read_bytes(4), Vec::<u8>::new());
    capture.exit_span(root);
    let trace = capture.finish();
    assert_eq!(trace.data, vec![7]);
    let root = span_of(&trace.root);
    assert!(matches!(root.actions[..], [Action::Read(1), Action::Read(0)]));
}

#[test]
fn ids_count_up_and_the_stack_follows_enter_and_exit() {
    let mut capture = Capture::new(0);
    assert!(!capture.has_root());
    assert_eq!(capture.current(), None);
    assert_eq!(capture.enter_span("a"), 0);
    assert!(capture.has_root());
    assert_eq!(capture.enter_span("b"), 1);
    assert_eq!(capture.current(), Some(1));
    capture.exit_span(1);
    assert_eq!(capture.current(), Some(0));
    assert_eq!(capture.enter_span("c"), 2);
    capture.read_action(&[9, 8, 7], 2);
    assert_eq!(capture.len(), 2);
    capture.exit_span(2);
    capture.exit_span(0);
    assert_eq!(capture.current(), None);
    let trace = capture.finish();
    let root = span_of(&trace.root);
    assert_eq!(root.name, "a");
    assert_eq!(span_of(&root.actions[0]).name, "b");
    let c = span_of(&root.actions[1]);
    assert_eq!(c.name, "c");
    assert!(matches!(c.actions[..], [Action::Read(2)]));
    assert_eq!(trace.data, vec![9, 8]);
}

#[test]
fn open_spans_are_part_of_the_finished_tree() {
    let mut capture = Capture::new(5);
    capture.enter_span("root");
    capture.enter_span("open");
    capture.seek_action(3);
    let trace = capture.finish();
    let root = span_of(&trace.root);
    let open = span_of(&root.actions[0]);
    assert_eq!(open.name, "open");
    assert!(matches!(open.actions[..], [Action::Seek(3)]));
    assert!(trace.data.is_empty());
    assert_eq!(trace.start_index, 5);
}

#[test]
fn resolving_takes_the_spans_out_of_the_table() {
    let mut root: ReadSpan<u64> = ReadSpan::new("root");
    root.actions.push(Action::Read(2));
    root.actions.push(Action::Span(2));
    root.actions.push(Action::Span(1));
    let mut one: ReadSpan<u64> = ReadSpan::new("one");
    one.actions.push(Action::Seek(9));
    let two: ReadSpan<u64> = ReadSpan::new("two");
    let other: ReadSpan<u64> = ReadSpan::new("other");
    let mut spans = vec![Some(root), Some(one), Some(two), Some(other)];
    let tree = TreeSpan::into_tree(0, &mut spans);
    assert_eq!(tree.name, "root");
    assert!(matches!(tree.actions[0], Action::Read(2)));
    assert_eq!(span_of(&tree.actions[1]).name, "two");
    let last = span_of(&tree.actions[2]);
    assert_eq!(last.name, "one");
    assert!(matches!(last.actions[..], [Action::Seek(9)]));
    assert!(spans[0].is_none() && spans[1].is_none() && spans[2].is_none());
    assert_eq!(spans[3].as_ref().map(|s| s.name.clone()), Some("other".to_string()));
}
