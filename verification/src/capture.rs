//! Capture by explicit spans: reads and seeks are recorded under the span
//! that is open when they happen, in a flat table of spans that refer to
//! their nested spans by id; when the capture ends, the table is resolved
//! into the nested tree.

use vstd::prelude::*;
use crate::resolve::{
    agrees_on_taken, carried, holds, lemma_present_taken, lemma_resolve_all_elsewhere,
    lemma_resolve_all_push, lemma_resolve_all_takes, resolve, resolve_all, taken_from, SpanTable,
};
use crate::trace::{
    lemma_replay_is_data, reads_of, reads_of_all, replay, seek_free, seek_free_all, total_read,
    total_read_all, Action, ActionView, ReadSpan, SpanView, Trace, TreeSpan,
};

verus! {

/// `span` with `action` appended to the span that is open `depth` levels
/// below it: to `span` itself at depth 0, else to the nested span that its
/// last action is.
pub open spec fn append_at(span: SpanView, depth: nat, action: ActionView) -> SpanView
    decreases depth,
{
    if depth > 0 && span.actions.len() > 0 && span.actions.last() is Span {
        SpanView {
            name: span.name,
            actions: span.actions.drop_last().push(
                ActionView::Span(
                    append_at(span.actions.last()->Span_0, (depth - 1) as nat, action),
                ),
            ),
        }
    } else {
        SpanView { name: span.name, actions: span.actions.push(action) }
    }
}

/// An action appended anywhere in a tree adds its bytes to those that the
/// tree reads.
pub proof fn lemma_append_adds_bytes(span: SpanView, depth: nat, action: ActionView)
    ensures
        total_read_all(append_at(span, depth, action).actions) == total_read_all(span.actions)
            + total_read(action),
    decreases depth,
{
    if depth > 0 && span.actions.len() > 0 && span.actions.last() is Span {
        let last = span.actions.last()->Span_0;
        lemma_append_adds_bytes(last, (depth - 1) as nat, action);
        let grown = append_at(span, depth, action).actions;
        assert(grown.drop_last() =~= span.actions.drop_last());
        assert(total_read(grown.last()) == total_read_all(
            append_at(last, (depth - 1) as nat, action).actions,
        ));
        assert(total_read(span.actions.last()) == total_read_all(last.actions));
        assert(total_read_all(grown) == total_read_all(grown.drop_last()) + total_read(
            grown.last(),
        ));
    } else {
        let grown = span.actions.push(action);
        assert(grown.drop_last() =~= span.actions);
        assert(total_read_all(grown) == total_read_all(grown.drop_last()) + total_read(
            grown.last(),
        ));
    }
}

/// Span `path[m]` is in the table, and the span after it on the path, if
/// there is one, is what its last action refers to and has a greater id.
pub open spec fn linked(table: SpanTable, path: Seq<u64>, m: int) -> bool {
    &&& holds(table, path[m] as int)
    &&& m + 1 < path.len() ==> {
        let actions = table[path[m] as int]->0.actions@;
        &&& actions.len() > 0
        &&& actions.last() == Action::Span(path[m + 1])
        &&& path[m] < path[m + 1]
    }
}

/// `path` leads through the table from span to nested span, each the last
/// action of the one before it.
pub open spec fn chained(table: SpanTable, path: Seq<u64>) -> bool {
    forall|m: int| 0 <= m < path.len() ==> #[trigger] linked(table, path, m)
}

/// What a recorded action is in the tree: a read or a seek as it is, and
/// a newly entered span as the empty span of its name.
pub open spec fn appended(action: Action<u64>, fresh: Option<ReadSpan<u64>>) -> ActionView {
    match action {
        Action::Read(n) => ActionView::Read(n as nat),
        Action::Seek(to) => ActionView::Seek(to as nat),
        Action::Span(_) => ActionView::Span(
            SpanView { name: fresh->0.name@, actions: Seq::empty() },
        ),
    }
}

/// `other` is `table` after `action` was recorded under span `top`, which
/// became `grown`; a newly entered span was added at the end as `fresh`.
pub open spec fn recorded(
    table: SpanTable,
    top: int,
    grown: ReadSpan<u64>,
    action: Action<u64>,
    fresh: Option<ReadSpan<u64>>,
    other: SpanTable,
) -> bool {
    match action {
        Action::Span(id) => {
            &&& id == table.len()
            &&& fresh is Some
            &&& fresh->0.actions@.len() == 0
            &&& other == table.update(top, Some(grown)).push(fresh)
        },
        _ => other == table.update(top, Some(grown)),
    }
}

/// What is left of what is left of a table is left of the table.
proof fn lemma_taken_chain(left: SpanTable, mid: SpanTable, table: SpanTable)
    requires
        taken_from(left, mid),
        taken_from(mid, table),
    ensures
        taken_from(left, table),
{
    assert forall|v: int| 0 <= v < table.len() implies (#[trigger] left[v]) is None || left[v]
        == table[v] by {
        assert(mid[v] is None || mid[v] == table[v]);
    }
}

/// A path without its first span is a path, and ids grow along a path.
proof fn lemma_chain_tail(table: SpanTable, path: Seq<u64>)
    requires
        path.len() > 1,
        chained(table, path),
    ensures
        chained(table, path.skip(1)),
        path[0] < path.last(),
    decreases path.len(),
{
    let tail = path.skip(1);
    assert forall|m: int| 0 <= m < tail.len() implies #[trigger] linked(table, tail, m) by {
        assert(linked(table, path, m + 1));
    }
    assert(linked(table, path, 0));
    if tail.len() > 1 {
        lemma_chain_tail(table, tail);
    }
}

/// Where a span on a path resolves, every span further down the path is
/// still in the table.
proof fn lemma_chain_present(origin: SpanTable, table: SpanTable, path: Seq<u64>)
    requires
        path.len() > 0,
        chained(origin, path),
        taken_from(table, origin),
        resolve(table, path[0] as int).0 is Some,
    ensures
        forall|m: int| 0 <= m < path.len() ==> holds(table, #[trigger] path[m] as int),
    decreases path.len(),
{
    let id = path[0] as int;
    if path.len() > 1 {
        assert(linked(origin, path, 0));
        let span = table[id]->0;
        let actions = span.actions@;
        let rest = table.update(id, None);
        let tail = path.skip(1);
        assert(actions =~= actions.drop_last().push(Action::Span(path[1])));
        lemma_resolve_all_push(rest, actions.drop_last(), Action::Span(path[1]));
        let (done, mid) = resolve_all(rest, actions.drop_last());
        lemma_resolve_all_takes(rest, actions.drop_last());
        assert(taken_from(rest, table));
        lemma_taken_chain(mid, rest, table);
        lemma_taken_chain(mid, table, origin);
        lemma_chain_tail(origin, path);
        lemma_chain_present(origin, mid, tail);
        assert forall|m: int| 0 <= m < path.len() implies holds(
            table,
            #[trigger] path[m] as int,
        ) by {
            if m > 0 {
                assert(tail[m - 1] == path[m]);
                assert(holds(mid, tail[m - 1] as int));
                assert(mid[path[m] as int] is None || mid[path[m] as int] == table[path[m] as int]);
            }
        }
    }
}

/// Recording an action under the innermost span of a path appends it, in
/// the tree that the outermost span resolves into, to the span open at the
/// depth of the path.
proof fn lemma_resolve_recorded(
    origin: SpanTable,
    table: SpanTable,
    path: Seq<u64>,
    grown: ReadSpan<u64>,
    action: Action<u64>,
    fresh: Option<ReadSpan<u64>>,
    other: SpanTable,
)
    requires
        path.len() > 0,
        chained(origin, path),
        taken_from(table, origin),
        resolve(table, path[0] as int).0 is Some,
        grown.name@ == origin[path.last() as int]->0.name@,
        grown.actions@ == origin[path.last() as int]->0.actions@.push(action),
        recorded(table, path.last() as int, grown, action, fresh, other),
    ensures
        resolve(other, path[0] as int).0 == Some(
            append_at(
                resolve(table, path[0] as int).0->0,
                (path.len() - 1) as nat,
                appended(action, fresh),
            ),
        ),
    decreases path.len(),
{
    let id = path[0] as int;
    let top = path.last() as int;
    lemma_chain_present(origin, table, path);
    assert(holds(table, id));
    assert(holds(table, path[path.len() - 1] as int));
    let span = table[id]->0;
    let rest = table.update(id, None);
    lemma_present_taken(table, id);
    if path.len() == 1 {
        let actions = span.actions@;
        let (done, mid) = resolve_all(rest, actions);
        lemma_resolve_all_takes(rest, actions);
        let other_rest = other.update(id, None);
        assert(agrees_on_taken(rest, mid, other_rest));
        lemma_resolve_all_elsewhere(rest, actions, other_rest);
        let other_mid = carried(rest, mid, other_rest);
        lemma_resolve_all_push(other_rest, actions, action);
        match action {
            Action::Span(n) => {
                assert(other_mid[n as int] == fresh);
                reveal_with_fuel(resolve_all, 2);
                assert(resolve(other_mid, n as int).0 == Some(
                    SpanView { name: fresh->0.name@, actions: Seq::empty() },
                ));
            },
            _ => {},
        }
        assert(resolve(other, id).0->0.actions =~= done->0.push(appended(action, fresh)));
    } else {
        assert(linked(origin, path, 0));
        lemma_chain_tail(origin, path);
        let actions = span.actions@;
        let init = actions.drop_last();
        let next = Action::Span(path[1]);
        let tail = path.skip(1);
        assert(actions =~= init.push(next));
        lemma_resolve_all_push(rest, init, next);
        let (done, mid) = resolve_all(rest, init);
        lemma_resolve_all_takes(rest, init);
        assert(taken_from(rest, table));
        lemma_taken_chain(mid, rest, table);
        lemma_taken_chain(mid, table, origin);
        lemma_chain_present(origin, mid, tail);
        assert(tail[tail.len() - 1] == path.last());
        assert(holds(mid, top));
        assert(mid[top] is None || mid[top] == rest[top]);
        let other_rest = other.update(id, None);
        assert(agrees_on_taken(rest, mid, other_rest)) by {
            assert forall|v: int| 0 <= v < rest.len() && rest[v] != mid[v] implies
                #[trigger] other_rest[v] == rest[v] by {
                assert(v != top);
            }
        }
        lemma_resolve_all_elsewhere(rest, init, other_rest);
        let other_mid = carried(rest, mid, other_rest);
        assert(recorded(mid, top, grown, action, fresh, other_mid)) by {
            match action {
                Action::Span(_) => {
                    assert(other_mid =~= mid.update(top, Some(grown)).push(fresh)) by {
                        assert forall|v: int| 0 <= v < other_mid.len() implies other_mid[v]
                            == mid.update(top, Some(grown)).push(fresh)[v] by {
                            if v < rest.len() {
                                assert(mid[v] is None || mid[v] == rest[v]);
                            }
                        }
                    }
                },
                _ => {
                    assert(other_mid =~= mid.update(top, Some(grown))) by {
                        assert forall|v: int| 0 <= v < other_mid.len() implies other_mid[v]
                            == mid.update(top, Some(grown))[v] by {
                            assert(mid[v] is None || mid[v] == rest[v]);
                        }
                    }
                },
            }
        }
        lemma_resolve_recorded(origin, mid, tail, grown, action, fresh, other_mid);
        lemma_resolve_all_push(other_rest, init, next);
        let before = resolve(table, id).0->0;
        assert(before.actions =~= done->0.push(ActionView::Span(resolve(mid, path[1] as int).0->0)));
        assert(before.actions.drop_last() =~= done->0);
        assert(other[id] == table[id]);
    }
}

/// What a parser does to a capture.
pub enum Event {
    /// It enters a span of this name.
    Enter(Seq<char>),
    /// It leaves the innermost open span.
    Exit,
    /// It reads these bytes.
    Read(Seq<u8>),
    /// It seeks to this offset.
    Seek(nat),
}

/// What a capture has come to: the tree so far, if the root was entered;
/// the number of open spans; and the data.
pub struct Outcome {
    pub tree: Option<SpanView>,
    pub open: nat,
    pub data: Seq<u8>,
}

/// The capture takes `event` now: a span can be entered while a span is
/// open or before the root was entered, and everything else happens
/// inside an open span.
pub open spec fn accepts(outcome: Outcome, event: Event) -> bool {
    match event {
        Event::Enter(_) => outcome.open > 0 || outcome.tree is None,
        _ => outcome.open > 0,
    }
}

/// What the capture has come to after `event`. A read or a seek becomes
/// the next action of the innermost open span, and the bytes of a read the
/// end of the data; an entered span becomes the next action of the
/// innermost open span, or the root, and is open from then on.
pub open spec fn after(outcome: Outcome, event: Event) -> Outcome {
    let depth = (outcome.open - 1) as nat;
    match event {
        Event::Enter(name) => {
            let entered = SpanView { name, actions: Seq::empty() };
            Outcome {
                tree: Some(
                    if outcome.open > 0 {
                        append_at(outcome.tree->0, depth, ActionView::Span(entered))
                    } else {
                        entered
                    },
                ),
                open: outcome.open + 1,
                data: outcome.data,
            }
        },
        Event::Exit => Outcome { tree: outcome.tree, open: depth, data: outcome.data },
        Event::Read(bytes) => Outcome {
            tree: Some(append_at(outcome.tree->0, depth, ActionView::Read(bytes.len()))),
            open: outcome.open,
            data: outcome.data + bytes,
        },
        Event::Seek(to) => Outcome {
            tree: Some(append_at(outcome.tree->0, depth, ActionView::Seek(to))),
            open: outcome.open,
            data: outcome.data,
        },
    }
}

/// What a capture has come to after `events`, from the start.
pub open spec fn run(events: Seq<Event>) -> Outcome
    decreases events.len(),
{
    if events.len() == 0 {
        Outcome { tree: None, open: 0, data: Seq::empty() }
    } else {
        after(run(events.drop_last()), events.last())
    }
}

/// Every one of `events` is taken when it comes.
pub open spec fn in_order(events: Seq<Event>) -> bool
    decreases events.len(),
{
    events.len() == 0 || (in_order(events.drop_last()) && accepts(
        run(events.drop_last()),
        events.last(),
    ))
}

/// Whatever a parser reads and wherever it seeks, inside whatever spans:
/// the tree of the capture reads exactly as many bytes as the data holds,
/// and the byte ranges of its reads, replayed from the start and put
/// together in order, are exactly the data.
pub proof fn lemma_capture_round_trip(events: Seq<Event>)
    requires
        in_order(events),
    ensures
        run(events).tree is None ==> run(events).open == 0 && run(events).data.len() == 0,
        run(events).tree matches Some(tree) ==> {
            &&& total_read(ActionView::Span(tree)) == run(events).data.len()
            &&& replay(ActionView::Span(tree), run(events).data, 0) == run(events).data
        },
    decreases events.len(),
{
    if events.len() > 0 {
        let before = run(events.drop_last());
        lemma_capture_round_trip(events.drop_last());
        let depth = (before.open - 1) as nat;
        match events.last() {
            Event::Enter(name) => {
                let entered = ActionView::Span(SpanView { name, actions: Seq::empty() });
                assert(total_read(entered) == 0) by {
                    reveal_with_fuel(total_read, 2);
                }
                if before.open > 0 {
                    lemma_append_adds_bytes(before.tree->0, depth, entered);
                }
            },
            Event::Exit => {},
            Event::Read(bytes) => {
                lemma_append_adds_bytes(before.tree->0, depth, ActionView::Read(bytes.len()));
            },
            Event::Seek(to) => {
                lemma_append_adds_bytes(before.tree->0, depth, ActionView::Seek(to));
            },
        }
        if run(events).tree is Some {
            lemma_replay_is_data(ActionView::Span(run(events).tree->0), run(events).data);
        }
    }
}

/// An action appended anywhere in a tree comes after every read of the
/// tree, and the tree holds a seek exactly if it did or the action does.
pub proof fn lemma_append_reads(span: SpanView, depth: nat, action: ActionView)
    ensures
        reads_of_all(append_at(span, depth, action).actions) == reads_of_all(span.actions)
            + reads_of(action),
        seek_free_all(append_at(span, depth, action).actions) == (seek_free_all(span.actions)
            && seek_free(action)),
    decreases depth,
{
    let grown = append_at(span, depth, action).actions;
    assert(reads_of_all(grown) == reads_of_all(grown.drop_last()) + reads_of(grown.last()));
    assert(seek_free_all(grown) == (seek_free_all(grown.drop_last()) && seek_free(grown.last())));
    if depth > 0 && span.actions.len() > 0 && span.actions.last() is Span {
        let last = span.actions.last()->Span_0;
        let before = reads_of_all(span.actions.drop_last());
        lemma_append_reads(last, (depth - 1) as nat, action);
        assert(grown.drop_last() =~= span.actions.drop_last());
        assert(reads_of(grown.last()) == reads_of_all(
            append_at(last, (depth - 1) as nat, action).actions,
        ));
        assert(seek_free(grown.last()) == seek_free_all(
            append_at(last, (depth - 1) as nat, action).actions,
        ));
        assert(reads_of(span.actions.last()) == reads_of_all(last.actions));
        assert(seek_free(span.actions.last()) == seek_free_all(last.actions));
        assert(before + (reads_of_all(last.actions) + reads_of(action)) =~= (before
            + reads_of_all(last.actions)) + reads_of(action));
    } else {
        assert(grown.drop_last() =~= span.actions);
    }
}

/// The sizes of the reads among `events`, in order.
pub open spec fn event_reads(events: Seq<Event>) -> Seq<nat>
    decreases events.len(),
{
    if events.len() == 0 {
        Seq::empty()
    } else if events.last() is Read {
        event_reads(events.drop_last()).push(events.last()->Read_0.len())
    } else {
        event_reads(events.drop_last())
    }
}

/// None of `events` is a seek.
pub open spec fn without_seek(events: Seq<Event>) -> bool {
    forall|i: int| 0 <= i < events.len() ==> !(#[trigger] events[i] is Seek)
}

/// The reads of the tree of a capture are the reads that happened, in the
/// order in which they happened, and the tree holds a seek exactly if a
/// seek happened.
pub proof fn lemma_capture_reads(events: Seq<Event>)
    requires
        in_order(events),
    ensures
        run(events).tree is None ==> event_reads(events).len() == 0 && without_seek(events),
        run(events).tree matches Some(tree) ==> {
            &&& reads_of(ActionView::Span(tree)) == event_reads(events)
            &&& seek_free(ActionView::Span(tree)) == without_seek(events)
        },
    decreases events.len(),
{
    if events.len() > 0 {
        let earlier = events.drop_last();
        let before = run(earlier);
        lemma_capture_reads(earlier);
        lemma_capture_round_trip(earlier);
        let depth = (before.open - 1) as nat;
        assert(without_seek(events) == (without_seek(earlier) && !(events.last() is Seek))) by {
            if without_seek(earlier) && !(events.last() is Seek) {
                assert forall|i: int| 0 <= i < events.len() implies !(#[trigger] events[i]
                    is Seek) by {
                    if i < earlier.len() {
                        assert(earlier[i] == events[i]);
                    }
                }
            }
            if without_seek(events) {
                assert forall|i: int| 0 <= i < earlier.len() implies !(#[trigger] earlier[i]
                    is Seek) by {
                    assert(earlier[i] == events[i]);
                }
                assert(events[events.len() - 1] == events.last());
            }
        }
        match events.last() {
            Event::Enter(name) => {
                let entered = ActionView::Span(SpanView { name, actions: Seq::empty() });
                assert(reads_of(entered) =~= Seq::<nat>::empty() && seek_free(entered)) by {
                    reveal_with_fuel(reads_of, 2);
                    reveal_with_fuel(seek_free, 2);
                }
                if before.open > 0 {
                    lemma_append_reads(before.tree->0, depth, entered);
                    assert(reads_of_all(before.tree->0.actions) + Seq::<nat>::empty()
                        =~= reads_of_all(before.tree->0.actions));
                }
            },
            Event::Exit => {},
            Event::Read(bytes) => {
                let read = ActionView::Read(bytes.len());
                lemma_append_reads(before.tree->0, depth, read);
                assert(reads_of_all(before.tree->0.actions) + seq![bytes.len()]
                    =~= reads_of_all(before.tree->0.actions).push(bytes.len()));
            },
            Event::Seek(to) => {
                lemma_append_reads(before.tree->0, depth, ActionView::Seek(to));
                assert(reads_of_all(before.tree->0.actions) + Seq::<nat>::empty()
                    =~= reads_of_all(before.tree->0.actions));
            },
        }
    }
}

/// Every span on a path but the last has a smaller id than the last.
proof fn lemma_chain_below_last(table: SpanTable, path: Seq<u64>, m: int)
    requires
        chained(table, path),
        0 <= m < path.len() - 1,
    ensures
        path[m] < path.last(),
    decreases path.len() - m,
{
    assert(linked(table, path, m));
    if m + 1 < path.len() - 1 {
        lemma_chain_below_last(table, path, m + 1);
    }
}

/// The state of a running capture: the bytes read so far, the table of
/// the spans entered so far, and the stack of the spans that are open.
pub struct Capture {
    start_index: usize,
    data: Vec<u8>,
    last_id: u64,
    root_span: Option<u64>,
    spans: Vec<Option<ReadSpan<u64>>>,
    stack: Vec<u64>,
}

impl Capture {
    /// The table of the spans entered so far; span `id` is entry `id`.
    pub closed spec fn table(&self) -> SpanTable {
        self.spans@
    }

    /// The ids of the open spans, outermost first.
    pub closed spec fn open_spans(&self) -> Seq<u64> {
        self.stack@
    }

    /// The bytes read so far, in the order read.
    pub closed spec fn bytes(&self) -> Seq<u8> {
        self.data@
    }

    /// The stream offset at which the capture began.
    pub closed spec fn start(&self) -> usize {
        self.start_index
    }

    /// The id of the root span, once one was entered.
    pub closed spec fn root(&self) -> Option<u64> {
        self.root_span
    }

    /// The tree captured so far: what the root span resolves into.
    pub open spec fn tree(&self) -> SpanView {
        resolve(self.table(), 0).0->0
    }

    /// How deep below the root the innermost open span is.
    pub open spec fn depth(&self) -> nat {
        (self.open_spans().len() - 1) as nat
    }

    /// What the capture has come to.
    pub open spec fn outcome(&self) -> Outcome {
        Outcome {
            tree: if self.table().len() > 0 {
                Some(self.tree())
            } else {
                None
            },
            open: self.open_spans().len(),
            data: self.bytes(),
        }
    }

    /// The state is one that a capture can reach: every span entered is in
    /// the table, the first of them is the root, the open spans lead from
    /// the root inwards, each the last action of the one before it, the
    /// root resolves into a tree, and that tree reads exactly as many bytes
    /// as were read.
    pub closed spec fn wf(&self) -> bool {
        &&& self.last_id == self.spans@.len()
        &&& forall|v: int| 0 <= v < self.spans@.len() ==> (#[trigger] self.spans@[v]) is Some
        &&& self.root_span == if self.spans@.len() > 0 {
            Some(0u64)
        } else {
            None
        }
        &&& self.stack@.len() > 0 ==> self.stack@[0] == 0
        &&& chained(self.spans@, self.stack@)
        &&& self.spans@.len() > 0 ==> resolve(self.spans@, 0).0 is Some
        &&& self.spans@.len() > 0 ==> self.data@.len() == total_read_all(
            resolve(self.spans@, 0).0->0.actions,
        )
        &&& self.spans@.len() == 0 ==> self.data@.len() == 0
    }

    /// A capture that begins at stream offset `start_index` and has seen
    /// nothing yet.
    pub fn new(start_index: usize) -> (capture: Self)
        ensures
            capture.wf(),
            capture.start() == start_index,
            capture.bytes() == Seq::<u8>::empty(),
            capture.table() == Seq::<Option<ReadSpan<u64>>>::empty(),
            capture.open_spans() == Seq::<u64>::empty(),
            capture.root() is None,
            capture.outcome() == run(Seq::empty()),
    {
        Capture {
            start_index,
            data: Vec::new(),
            last_id: 0,
            root_span: None,
            spans: Vec::new(),
            stack: Vec::new(),
        }
    }

    /// The id of the innermost open span, if a span is open.
    pub fn current(&self) -> (id: Option<u64>)
        ensures
            id is Some <==> self.open_spans().len() > 0,
            id is Some ==> id->0 == self.open_spans().last(),
    {
        if self.stack.len() > 0 {
            Some(self.stack[self.stack.len() - 1])
        } else {
            None
        }
    }

    /// Whether a root span was entered.
    pub fn has_root(&self) -> (entered: bool)
        ensures
            entered == self.root() is Some,
    {
        self.root_span.is_some()
    }

    /// Number of bytes read so far.
    pub fn len(&self) -> (n: usize)
        ensures
            n == self.bytes().len(),
    {
        self.data.len()
    }

    /// Appends a read or a seek to the actions of the innermost open span.
    fn record(&mut self, action: Action<u64>)
        requires
            old(self).wf(),
            old(self).open_spans().len() > 0,
            action is Read || action is Seek,
        ensures
            final(self).spans@.len() == old(self).spans@.len(),
            forall|v: int|
                0 <= v < final(self).spans@.len() ==> (#[trigger] final(self).spans@[v]) is Some,
            chained(final(self).spans@, final(self).stack@),
            final(self).stack@ == old(self).stack@,
            final(self).data@ == old(self).data@,
            final(self).last_id == old(self).last_id,
            final(self).root_span == old(self).root_span,
            final(self).start_index == old(self).start_index,
            resolve(final(self).spans@, 0).0 == Some(
                append_at(old(self).tree(), old(self).depth(), appended(action, None)),
            ),
    {
        let ghost table = self.spans@;
        let ghost path = self.stack@;
        let top = self.stack[self.stack.len() - 1];
        proof {
            assert(linked(table, path, path.len() - 1));
        }
        let len = self.spans.len();
        let at = top as usize;
        self.spans.push(None);
        let taken = self.spans.swap_remove(at);
        let mut span = taken.unwrap();
        span.actions.push(action);
        let ghost grown = span;
        self.spans.push(Some(span));
        let emptied = self.spans.swap_remove(at);
        proof {
            let other = self.spans@;
            assert(other =~= table.update(top as int, Some(grown)));
            assert(taken_from(table, table));
            lemma_resolve_recorded(table, table, path, grown, action, None, other);
            assert forall|m: int| 0 <= m < path.len() implies #[trigger] linked(
                other,
                path,
                m,
            ) by {
                assert(linked(table, path, m));
                if m < path.len() - 1 {
                    lemma_chain_below_last(table, path, m);
                }
            }
        }
    }

    /// Records a read of the first `size` bytes of `buf` under the
    /// innermost open span: the bytes are appended to the data, and the
    /// read to the actions of that span. A read of no bytes is recorded
    /// too.
    pub fn read_action(&mut self, buf: &[u8], size: usize)
        requires
            old(self).wf(),
            old(self).open_spans().len() > 0,
            size <= buf@.len(),
        ensures
            final(self).wf(),
            final(self).bytes() == old(self).bytes() + buf@.subrange(0, size as int),
            final(self).tree() == append_at(
                old(self).tree(),
                old(self).depth(),
                ActionView::Read(size as nat),
            ),
            final(self).open_spans() == old(self).open_spans(),
            final(self).table().len() == old(self).table().len(),
            final(self).start() == old(self).start(),
            final(self).root() == old(self).root(),
            final(self).outcome() == after(
                old(self).outcome(),
                Event::Read(buf@.subrange(0, size as int)),
            ),
    {
        proof {
            assert(linked(self.spans@, self.stack@, 0));
        }
        self.record(Action::Read(size));
        let bytes = vstd::slice::slice_subrange(buf, 0, size);
        self.data.extend_from_slice(bytes);
        proof {
            assert(self.data@ =~= old(self).data@ + buf@.subrange(0, size as int));
            lemma_append_adds_bytes(
                old(self).tree(),
                old(self).depth(),
                ActionView::Read(size as nat),
            );
        }
    }

    /// Records a seek to offset `to` under the innermost open span. No
    /// bytes are appended to the data.
    pub fn seek_action(&mut self, to: usize)
        requires
            old(self).wf(),
            old(self).open_spans().len() > 0,
        ensures
            final(self).wf(),
            final(self).bytes() == old(self).bytes(),
            final(self).tree() == append_at(
                old(self).tree(),
                old(self).depth(),
                ActionView::Seek(to as nat),
            ),
            final(self).open_spans() == old(self).open_spans(),
            final(self).table().len() == old(self).table().len(),
            final(self).start() == old(self).start(),
            final(self).root() == old(self).root(),
            final(self).outcome() == after(old(self).outcome(), Event::Seek(to as nat)),
    {
        proof {
            assert(linked(self.spans@, self.stack@, 0));
        }
        self.record(Action::Seek(to));
        proof {
            lemma_append_adds_bytes(
                old(self).tree(),
                old(self).depth(),
                ActionView::Seek(to as nat),
            );
        }
    }

    /// Enters a new span called `name`, and returns its id. The span is
    /// added to the table without actions. If a span is open, the new span
    /// becomes the next action of the innermost open span; if none is, it
    /// becomes the root, which can happen once. The new span is then the
    /// innermost open span.
    pub fn enter_span(&mut self, name: &str) -> (id: u64)
        requires
            old(self).wf(),
            old(self).open_spans().len() > 0 || old(self).root() is None,
        ensures
            final(self).wf(),
            id == old(self).table().len(),
            final(self).table().len() == old(self).table().len() + 1,
            final(self).open_spans() == old(self).open_spans().push(id),
            final(self).bytes() == old(self).bytes(),
            final(self).start() == old(self).start(),
            final(self).root() == Some(0u64),
            final(self).tree() == if old(self).open_spans().len() > 0 {
                append_at(
                    old(self).tree(),
                    old(self).depth(),
                    ActionView::Span(SpanView { name: name@, actions: Seq::empty() }),
                )
            } else {
                SpanView { name: name@, actions: Seq::empty() }
            },
            final(self).outcome() == after(old(self).outcome(), Event::Enter(name@)),
            old(self).open_spans().len() > 0 ==> final(self).root() == old(self).root(),
            old(self).root() is None ==> id == 0,
    {
        let ghost table = self.spans@;
        let ghost path = self.stack@;
        let len = self.spans.len();
        let fresh: ReadSpan<u64> = ReadSpan::new(name);
        let ghost entered = Some(fresh);
        if self.stack.len() > 0 {
            let id = self.last_id;
            let top = self.stack[self.stack.len() - 1];
            proof {
                assert(linked(table, path, path.len() - 1));
                assert(linked(table, path, 0));
            }
            let at = top as usize;
            self.spans.push(None);
            let taken = self.spans.swap_remove(at);
            let mut span = taken.unwrap();
            span.actions.push(Action::Span(id));
            let ghost grown = span;
            self.spans.push(Some(span));
            let emptied = self.spans.swap_remove(at);
            self.spans.push(Some(fresh));
            let count = self.spans.len();
            self.last_id = id + 1;
            self.stack.push(id);
            proof {
                let other = self.spans@;
                let action = Action::<u64>::Span(id);
                assert(other =~= table.update(top as int, Some(grown)).push(entered));
                assert(taken_from(table, table));
                lemma_resolve_recorded(table, table, path, grown, action, entered, other);
                assert forall|m: int| 0 <= m < self.stack@.len() implies #[trigger] linked(
                    other,
                    self.stack@,
                    m,
                ) by {
                    if m < path.len() {
                        assert(linked(table, path, m));
                        if m < path.len() - 1 {
                            lemma_chain_below_last(table, path, m);
                        }
                    }
                }
                lemma_append_adds_bytes(old(self).tree(), old(self).depth(), appended(action, entered));
                assert(total_read(appended(action, entered)) == 0) by {
                    reveal_with_fuel(total_read, 2);
                }
            }
            id
        } else {
            self.spans.push(Some(fresh));
            let count = self.spans.len();
            self.last_id = 1;
            self.root_span = Some(0);
            self.stack.push(0);
            proof {
                let other = self.spans@;
                assert(other =~= seq![entered]);
                assert(linked(other, self.stack@, 0));
                reveal_with_fuel(resolve_all, 2);
                assert(other.update(0, None) =~= seq![None]);
                assert(resolve(other, 0).0 == Some(
                    SpanView { name: name@, actions: Seq::<ActionView>::empty() },
                ));
            }
            0
        }
    }

    /// Leaves the innermost open span, which must be span `id`.
    pub fn exit_span(&mut self, id: u64)
        requires
            old(self).wf(),
            old(self).open_spans().len() > 0,
            old(self).open_spans().last() == id,
        ensures
            final(self).wf(),
            final(self).open_spans() == old(self).open_spans().drop_last(),
            final(self).table() == old(self).table(),
            final(self).bytes() == old(self).bytes(),
            final(self).start() == old(self).start(),
            final(self).root() == old(self).root(),
            final(self).outcome() == after(old(self).outcome(), Event::Exit),
    {
        let ghost path = self.stack@;
        proof {
            assert(linked(self.spans@, path, 0));
        }
        let popped = self.stack.pop();
        proof {
            assert(self.stack@ =~= path.drop_last());
            assert forall|m: int| 0 <= m < self.stack@.len() implies #[trigger] linked(
                self.spans@,
                self.stack@,
                m,
            ) by {
                assert(linked(self.spans@, path, m));
            }
        }
    }

    /// Ends the capture and gives the trace: the data read, the offset at
    /// which the capture began, and the tree that the root span resolves
    /// into. The tree reads exactly as many bytes as the data holds, and
    /// the byte ranges of its reads, replayed from the start and put
    /// together in order, are exactly the data.
    pub fn finish(self) -> (trace: Trace)
        requires
            self.wf(),
            self.root() is Some,
        ensures
            trace.data@ == self.bytes(),
            trace.start_index == self.start(),
            trace.root@ == ActionView::Span(self.tree()),
            total_read(trace.root@) == trace.data@.len(),
            replay(trace.root@, trace.data@, 0) == trace.data@,
    {
        let mut spans = self.spans;
        let tree = TreeSpan::into_tree(0, &mut spans);
        proof {
            lemma_replay_is_data(ActionView::Span(tree@), self.data@);
        }
        Trace { data: self.data, start_index: self.start_index, root: Action::Span(tree) }
    }
}

} // verus!
