use ser_hex::trace::{Action, TreeSpan};
use ser_hex::tracer::{
    common_end, common_start, Frame, Op, StackFrame, Symbol, SymbolCache, Tracer,
    TracerOptions, TreeNode,
};

const A: u64 = 0xA0;
const B: u64 = 0xB0;
const C: u64 = 0xC0;
const D: u64 = 0xD0;
const E: u64 = 0xE0;

fn frame(id: u64) -> StackFrame {
    StackFrame { id, ip: id + 1 }
}

/// A captured stack: the frames given outermost first, handed over
/// innermost first as a stack walk yields them.
fn captured(outermost_first: &[u64]) -> Vec<StackFrame> {
    outermost_first.iter().rev().map(|&id| frame(id)).collect()
}

fn ids(frames: &[StackFrame]) -> Vec<u64> {
    frames.iter().map(|f| f.id).collect()
}

fn names() -> SymbolCache {
    let mut cache = SymbolCache::new();
    for (id, name) in [(A, "a"), (B, "b"), (C, "c"), (D, "d"), (E, "e")] {
        cache.insert(id + 1, Symbol::found(Some(name.to_string()), id));
    }
    cache
}

fn span_of(action: &Action<TreeSpan>) -> &TreeSpan {
    match action {
        Action::Span(span) => span,
        other => panic!("not a span: {:?}", other),
    }
}

#[test]
fn trimming_drops_the_shared_prefix_and_suffix() {
    let mut tracer = Tracer::new();
    tracer.record(captured(&[A, B, C, D]), &[1]);
    tracer.record(captured(&[A, B, E, D]), &[2, 3]);
    let kept = tracer.retained_frames();
    assert_eq!(kept.len(), 2);
    assert_eq!(ids(&kept[0]), vec![C]);
    assert_eq!(ids(&kept[1]), vec![E]);
    assert_eq!(tracer.data(), &[1, 2, 3]);
}

#[test]
fn common_frames_are_counted_from_both_ends() {
    let ops = vec![
        Op { count: 1, stack: vec![frame(A), frame(B), frame(C), frame(D)] },
        Op { count: 1, stack: vec![frame(A), frame(B), frame(E), frame(D)] },
    ];
    assert_eq!(common_start(&ops), 2);
    assert_eq!(common_end(&ops, 2), 1);
    assert_eq!(common_start(&Vec::new()), 0);
    assert_eq!(common_end(&Vec::new(), 0), 0);
}

#[test]
fn the_suffix_does_not_reach_into_the_prefix() {
    let ops = vec![
        Op { count: 1, stack: vec![frame(A), frame(B)] },
        Op { count: 1, stack: vec![frame(A), frame(B)] },
    ];
    assert_eq!(common_start(&ops), 2);
    assert_eq!(common_end(&ops, 2), 0);
    let shorter = vec![
        Op { count: 1, stack: vec![frame(A), frame(D)] },
        Op { count: 1, stack: vec![frame(A), frame(C), frame(D)] },
    ];
    assert_eq!(common_start(&shorter), 1);
    assert_eq!(common_end(&shorter, 1), 1);
}

#[test]
fn frames_that_differ_only_by_instruction_pointer_are_shared() {
    let ops = vec![
        Op { count: 1, stack: vec![StackFrame { id: A, ip: 1 }, frame(C)] },
        Op { count: 1, stack: vec![StackFrame { id: A, ip: 2 }, frame(E)] },
    ];
    assert_eq!(common_start(&ops), 1);
}

#[test]
fn skipped_frames_are_the_innermost_of_the_captured_stack() {
    let mut tracer = Tracer::new_options(TracerOptions { skip_frames: 2 });
    tracer.record(captured(&[A, B, C, D]), &[9]);
    tracer.record(captured(&[E]), &[9]);
    tracer.record(captured(&[A, C, D, E]), &[9]);
    let kept = tracer.retained_frames();
    assert_eq!(ids(&kept[0]), vec![A, B]);
    assert_eq!(ids(&kept[1]), Vec::<u64>::new());
    assert_eq!(ids(&kept[2]), vec![A, C]);
}

#[test]
fn insert_descends_into_the_last_child_only() {
    let mut root = Frame::new(A, A + 1);
    root.insert(&[frame(B), frame(C)], 1);
    root.insert(&[frame(B), frame(C)], 2);
    root.insert(&[frame(D)], 3);
    root.insert(&[frame(B), frame(C)], 4);
    root.insert(&[], 5);
    assert_eq!(root.children.len(), 4);
    let TreeNode::Frame(first) = &root.children[0] else {
        panic!("not a frame");
    };
    assert_eq!((first.id, first.ip), (B, B + 1));
    let TreeNode::Frame(inner) = &first.children[0] else {
        panic!("not a frame");
    };
    assert_eq!(inner.id, C);
    assert!(matches!(inner.children[..], [TreeNode::Read { count: 1 }, TreeNode::Read { count: 2 }]));
    assert!(matches!(&root.children[1], TreeNode::Frame(f) if f.id == D));
    let TreeNode::Frame(again) = &root.children[2] else {
        panic!("not a frame");
    };
    assert_eq!(again.id, B);
    assert_eq!(again.children.len(), 1);
    assert!(matches!(root.children[3], TreeNode::Read { count: 5 }));
}

#[test]
fn trace_grows_the_span_tree_from_the_samples() {
    let mut tracer = Tracer::new();
    tracer.record(captured(&[A, B, C, D]), &[1]);
    tracer.record(captured(&[A, B, C, D]), &[2, 3]);
    tracer.record(captured(&[A, B, E, D]), &[4]);
    let mut cache = names();
    let trace = tracer.trace(&mut cache);
    assert_eq!(trace.data, vec![1, 2, 3, 4]);
    assert_eq!(trace.start_index, 0);
    let root = span_of(&trace.root);
    assert_eq!(root.name, "root");
    assert_eq!(root.actions.len(), 2);
    let c = span_of(&root.actions[0]);
    assert_eq!(c.name, "c");
    assert!(matches!(c.actions[..], [Action::Read(1), Action::Read(2)]));
    let e = span_of(&root.actions[1]);
    assert_eq!(e.name, "e");
    assert!(matches!(e.actions[..], [Action::Read(1)]));
}

#[test]
fn the_retained_frames_stand_directly_under_the_root() {
    let mut tracer = Tracer::new();
    tracer.record(captured(&[A, B, C, D]), &[1]);
    tracer.record(captured(&[A, B, E, D]), &[2, 3]);
    let mut cache = names();
    let trace = tracer.trace(&mut cache);
    let root = span_of(&trace.root);
    let under: Vec<&str> = root.actions.iter().map(|a| span_of(a).name.as_str()).collect();
    assert_eq!(under, vec!["c", "e"]);
    assert!(matches!(span_of(&root.actions[0]).actions[..], [Action::Read(1)]));
    assert!(matches!(span_of(&root.actions[1]).actions[..], [Action::Read(2)]));
}

#[test]
fn calls_that_are_not_next_to_each_other_are_not_merged() {
    let mut tracer = Tracer::new();
    tracer.record(captured(&[C]), &[1]);
    tracer.record(captured(&[C]), &[2, 2]);
    tracer.record(captured(&[E]), &[3, 3, 3]);
    tracer.record(captured(&[C]), &[4, 4, 4, 4]);
    let mut cache = names();
    let trace = tracer.trace(&mut cache);
    let root = span_of(&trace.root);
    assert_eq!(root.actions.len(), 3);
    let first = span_of(&root.actions[0]);
    assert_eq!(first.name, "c");
    assert!(matches!(first.actions[..], [Action::Read(1), Action::Read(2)]));
    let second = span_of(&root.actions[1]);
    assert_eq!(second.name, "e");
    assert!(matches!(second.actions[..], [Action::Read(3)]));
    let third = span_of(&root.actions[2]);
    assert_eq!(third.name, "c");
    assert!(matches!(third.actions[..], [Action::Read(4)]));
    assert_eq!(trace.data.len(), 10);
}

#[test]
fn trace_without_samples_is_an_empty_root() {
    let tracer = Tracer::new();
    let mut cache = SymbolCache::new();
    let trace = tracer.trace(&mut cache);
    assert!(trace.data.is_empty());
    let root = span_of(&trace.root);
    assert_eq!(root.name, "root");
    assert!(root.actions.is_empty());
    assert!(tracer.frames().is_empty());
}

#[test]
fn a_sample_that_keeps_no_frame_reads_under_the_root() {
    let mut tracer = Tracer::new();
    tracer.record(captured(&[A, B]), &[1, 2]);
    let mut cache = SymbolCache::new();
    let trace = tracer.trace(&mut cache);
    assert_eq!(trace.data, vec![1, 2]);
    assert_eq!(trace.start_index, 0);
    let root = span_of(&trace.root);
    assert_eq!(root.name, "root");
    assert!(matches!(root.actions[..], [Action::Read(2)]));
    assert!(cache.get(A + 1).is_none());

    let mut tracer = Tracer::new();
    tracer.record(captured(&[A, B]), &[1]);
    tracer.record(captured(&[A, B]), &[2]);
    tracer.record(captured(&[A, B]), &[3, 4]);
    let trace = tracer.trace(&mut cache);
    let root = span_of(&trace.root);
    assert!(matches!(
        root.actions[..],
        [Action::Read(1), Action::Read(1), Action::Read(2)]
    ));

    let mut tracer = Tracer::new();
    tracer.record(captured(&[A]), &[1]);
    tracer.record(captured(&[A, C]), &[2]);
    let mut cache = names();
    let trace = tracer.trace(&mut cache);
    let root = span_of(&trace.root);
    assert_eq!(root.actions.len(), 2);
    assert!(matches!(root.actions[0], Action::Read(1)));
    let c = span_of(&root.actions[1]);
    assert_eq!(c.name, "c");
    assert!(matches!(c.actions[..], [Action::Read(1)]));
}

#[test]
fn a_read_from_wherever_is_traced() {
    let mut tracer = Tracer::new();
    tracer.read(&[1, 2]);
    let mut cache = SymbolCache::new();
    let trace = tracer.trace(&mut cache);
    assert_eq!(trace.data, vec![1, 2]);
    let root = span_of(&trace.root);
    assert!(matches!(root.actions[..], [Action::Read(2)]));
}

#[test]
fn unnamed_frames_are_called_by_their_address() {
    assert_eq!(Symbol::found(None, 0).name(), "0x0");
    assert_eq!(Symbol::found(None, 255).name(), "0xFF");
    assert_eq!(Symbol::found(None, 0x1A2B3C).name(), "0x1A2B3C");
    assert_eq!(Symbol::found(None, u64::MAX).name(), "0xFFFFFFFFFFFFFFFF");
    assert_eq!(Symbol::found(None, 16).name(), format!("0x{:X?}", 16u64));
    assert_eq!(Symbol::found(Some("main".to_string()), 16).name(), "main");
}

#[test]
fn the_cache_keeps_the_first_name_of_an_address() {
    let mut cache = SymbolCache::new();
    cache.insert(7, Symbol::found(Some("first".to_string()), 1));
    assert_eq!(cache.symbolize(7, 2).name(), "first");
    assert_eq!(cache.get(7).map(|s| s.name().to_string()), Some("first".to_string()));
    assert!(cache.get(8).is_none());
    let looked_up = cache.symbolize(8, 0x20).name().to_string();
    assert_eq!(cache.get(8).map(|s| s.name().to_string()), Some(looked_up.clone()));
    assert_eq!(cache.symbolize(8, 0x30).name(), looked_up);
}

#[test]
fn read_samples_the_stack_it_is_called_from() {
    let mut tracer = Tracer::new();
    tracer.read(&[1, 2]);
    tracer.read(&[3]);
    assert_eq!(tracer.data(), &[1, 2, 3]);
    assert_eq!(tracer.len(), 2);
    let kept = tracer.retained_frames();
    assert_eq!(kept.len(), 2);
}
