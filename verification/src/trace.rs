//! The trace data model: actions, spans, the trace envelope, and the offset
//! accumulation that gives every node of the tree its byte range.

use vstd::prelude::*;
use base64::prelude::{Engine, BASE64_STANDARD};
use base64::DecodeError;

verus! {

/// One recorded event, in program order within its parent span. `S` is what
/// stands for a nested span: an id while a capture is running, the span
/// itself once the tree is built.
#[derive(Debug)]
pub enum Action<S> {
    /// A read of this many bytes.
    Read(usize),
    /// A seek to this absolute offset.
    Seek(usize),
    /// A nested span.
    Span(S),
}

/// A named, ordered list of actions whose nested spans are held as `S`.
#[derive(Debug)]
pub struct ReadSpan<S = TreeSpan> {
    pub name: String,
    pub actions: Vec<Action<S>>,
}

/// A span of the finished tree: its nested spans are held by value.
#[derive(Debug)]
pub struct TreeSpan {
    pub name: String,
    pub actions: Vec<Action<TreeSpan>>,
}

/// A finished capture: every byte read, in the order read; the stream offset
/// at which the capture began; and the tree of actions.
#[derive(Debug)]
pub struct Trace {
    pub data: Vec<u8>,
    pub start_index: usize,
    pub root: Action<TreeSpan>,
}

/// Mathematical model of an action of the finished tree.
pub enum ActionView {
    Read(nat),
    Seek(nat),
    Span(SpanView),
}

/// Mathematical model of a span of the finished tree.
pub struct SpanView {
    pub name: Seq<char>,
    pub actions: Seq<ActionView>,
}

/// The model of a span: its name and the models of its actions.
pub open spec fn span_model(span: TreeSpan) -> SpanView
    decreases span,
{
    SpanView {
        name: span.name@,
        actions: Seq::new(
            span.actions.len() as nat,
            |i: int|
                if 0 <= i < span.actions.len() {
                    action_model(span.actions[i])
                } else {
                    ActionView::Read(0)
                },
        ),
    }
}

/// The model of an action.
pub open spec fn action_model(action: Action<TreeSpan>) -> ActionView
    decreases action,
{
    match action {
        Action::Read(n) => ActionView::Read(n as nat),
        Action::Seek(o) => ActionView::Seek(o as nat),
        Action::Span(span) => ActionView::Span(span_model(span)),
    }
}

impl View for TreeSpan {
    type V = SpanView;

    open spec fn view(&self) -> SpanView {
        span_model(*self)
    }
}

impl View for Action<TreeSpan> {
    type V = ActionView;

    open spec fn view(&self) -> ActionView {
        action_model(*self)
    }
}

/// The models of a list of actions, in order.
pub open spec fn views(actions: Seq<Action<TreeSpan>>) -> Seq<ActionView> {
    Seq::new(actions.len(), |i: int| actions[i]@)
}

/// The offset reached after `action`, entered at `offset`: a read advances
/// by its size, a seek moves to its target, a span is the walk through its
/// actions in order.
pub open spec fn end_offset(action: ActionView, offset: int) -> int
    decreases action,
{
    match action {
        ActionView::Read(n) => offset + n,
        ActionView::Seek(o) => o as int,
        ActionView::Span(span) => end_offset_all(span.actions, offset),
    }
}

/// The offset reached after all of `actions`, entered at `offset`.
pub open spec fn end_offset_all(actions: Seq<ActionView>, offset: int) -> int
    decreases actions,
{
    if actions.len() == 0 {
        offset
    } else {
        end_offset(actions.last(), end_offset_all(actions.drop_last(), offset))
    }
}

/// The offset at which child `k` of a span entered at `offset` begins.
pub open spec fn child_start(actions: Seq<ActionView>, k: int, offset: int) -> int {
    end_offset_all(actions.take(k), offset)
}

/// No offset reached while walking `action` from `offset` exceeds `limit`.
pub open spec fn within(action: ActionView, offset: int, limit: int) -> bool
    decreases action,
{
    match action {
        ActionView::Read(n) => offset + n <= limit,
        ActionView::Seek(o) => o <= limit,
        ActionView::Span(span) => within_all(span.actions, offset, limit),
    }
}

/// No offset reached while walking `actions` from `offset` exceeds `limit`.
pub open spec fn within_all(actions: Seq<ActionView>, offset: int, limit: int) -> bool
    decreases actions,
{
    if actions.len() == 0 {
        true
    } else {
        &&& within_all(actions.drop_last(), offset, limit)
        &&& within(actions.last(), end_offset_all(actions.drop_last(), offset), limit)
    }
}

/// Number of bytes read by `action` and everything nested in it.
pub open spec fn total_read(action: ActionView) -> nat
    decreases action,
{
    match action {
        ActionView::Read(n) => n,
        ActionView::Seek(_) => 0,
        ActionView::Span(span) => total_read_all(span.actions),
    }
}

/// Number of bytes read by `actions` and everything nested in them.
pub open spec fn total_read_all(actions: Seq<ActionView>) -> nat
    decreases actions,
{
    if actions.len() == 0 {
        0
    } else {
        total_read_all(actions.drop_last()) + total_read(actions.last())
    }
}

/// A walk that stays below a limit stays below it on every prefix.
pub proof fn lemma_within_prefix(actions: Seq<ActionView>, k: int, offset: int, limit: int)
    requires
        0 <= k <= actions.len(),
        within_all(actions, offset, limit),
    ensures
        within_all(actions.take(k), offset, limit),
    decreases actions.len(),
{
    if k == actions.len() {
        assert(actions.take(k) =~= actions);
    } else {
        lemma_within_prefix(actions.drop_last(), k, offset, limit);
        assert(actions.drop_last().take(k) =~= actions.take(k));
    }
}

/// The walk through a child of a span is part of the walk through the span.
pub proof fn lemma_within_child(actions: Seq<ActionView>, k: int, offset: int, limit: int)
    requires
        0 <= k < actions.len(),
        within_all(actions, offset, limit),
    ensures
        within(actions[k], child_start(actions, k, offset), limit),
{
    lemma_within_prefix(actions, k + 1, offset, limit);
    assert(actions.take(k + 1).drop_last() =~= actions.take(k));
}

/// The sizes of the reads of `action`, in the order in which a walk through
/// the action meets them.
pub open spec fn reads_of(action: ActionView) -> Seq<nat>
    decreases action,
{
    match action {
        ActionView::Read(n) => seq![n],
        ActionView::Seek(_) => Seq::empty(),
        ActionView::Span(span) => reads_of_all(span.actions),
    }
}

/// The sizes of the reads of `actions`, in order.
pub open spec fn reads_of_all(actions: Seq<ActionView>) -> Seq<nat>
    decreases actions,
{
    if actions.len() == 0 {
        Seq::empty()
    } else {
        reads_of_all(actions.drop_last()) + reads_of(actions.last())
    }
}

/// `action` holds no seek, nor does anything nested in it.
pub open spec fn seek_free(action: ActionView) -> bool
    decreases action,
{
    match action {
        ActionView::Read(_) => true,
        ActionView::Seek(_) => false,
        ActionView::Span(span) => seek_free_all(span.actions),
    }
}

/// None of `actions` holds a seek.
pub open spec fn seek_free_all(actions: Seq<ActionView>) -> bool
    decreases actions,
{
    actions.len() == 0 || (seek_free_all(actions.drop_last()) && seek_free(actions.last()))
}

/// The sum of `sizes`.
pub open spec fn sum_of(sizes: Seq<nat>) -> nat
    decreases sizes.len(),
{
    if sizes.len() == 0 {
        0
    } else {
        sum_of(sizes.drop_last()) + sizes.last()
    }
}

/// The sum of two lists put together is the sum of their sums.
pub proof fn lemma_sum_of_both(first: Seq<nat>, second: Seq<nat>)
    ensures
        sum_of(first + second) == sum_of(first) + sum_of(second),
    decreases second.len(),
{
    if second.len() == 0 {
        assert(first + second =~= first);
    } else {
        lemma_sum_of_both(first, second.drop_last());
        assert((first + second).drop_last() =~= first + second.drop_last());
    }
}

/// An action reads as many bytes as its reads have together.
pub proof fn lemma_total_is_sum(action: ActionView)
    ensures
        total_read(action) == sum_of(reads_of(action)),
    decreases action,
{
    match action {
        ActionView::Read(n) => {
            assert(seq![n].drop_last() =~= Seq::<nat>::empty());
            reveal_with_fuel(sum_of, 2);
        },
        ActionView::Seek(_) => {},
        ActionView::Span(span) => {
            lemma_total_is_sum_all(span.actions);
        },
    }
}

/// A list of actions reads as many bytes as its reads have together.
pub proof fn lemma_total_is_sum_all(actions: Seq<ActionView>)
    ensures
        total_read_all(actions) == sum_of(reads_of_all(actions)),
    decreases actions,
{
    if actions.len() > 0 {
        lemma_total_is_sum_all(actions.drop_last());
        lemma_total_is_sum(actions.last());
        lemma_sum_of_both(reads_of_all(actions.drop_last()), reads_of(actions.last()));
    }
}

/// Without a seek, the walk through an action ends as many bytes after
/// its start as the action reads.
pub proof fn lemma_seek_free_end(action: ActionView, offset: int)
    requires
        seek_free(action),
    ensures
        end_offset(action, offset) == offset + total_read(action),
    decreases action,
{
    match action {
        ActionView::Span(span) => {
            lemma_seek_free_end_all(span.actions, offset);
        },
        _ => {},
    }
}

/// Without a seek, the walk through a list of actions ends as many bytes
/// after its start as the actions read.
pub proof fn lemma_seek_free_end_all(actions: Seq<ActionView>, offset: int)
    requires
        seek_free_all(actions),
    ensures
        end_offset_all(actions, offset) == offset + total_read_all(actions),
    decreases actions,
{
    if actions.len() > 0 {
        lemma_seek_free_end_all(actions.drop_last(), offset);
        lemma_seek_free_end(
            actions.last(),
            end_offset_all(actions.drop_last(), offset),
        );
    }
}

/// Where a list of actions holds no seek, none of its first `k` does, nor
/// does any one of them.
pub proof fn lemma_seek_free_prefix(actions: Seq<ActionView>, k: int)
    requires
        seek_free_all(actions),
        0 <= k <= actions.len(),
    ensures
        seek_free_all(actions.take(k)),
        k < actions.len() ==> seek_free(actions[k]),
    decreases actions.len(),
{
    if k == actions.len() {
        assert(actions.take(k) =~= actions);
    } else {
        lemma_seek_free_prefix(actions.drop_last(), k);
        assert(actions.drop_last().take(k) =~= actions.take(k));
        if k < actions.len() - 1 {
            assert(actions.drop_last()[k] == actions[k]);
        }
    }
}

/// The bytes of `data` that the reads of `action` cover, in order, where
/// the first read begins at `cursor` and every read begins where the read
/// before it ended. Seeks take nothing from the data.
pub open spec fn replay(action: ActionView, data: Seq<u8>, cursor: int) -> Seq<u8>
    decreases action,
{
    match action {
        ActionView::Read(n) => data.subrange(cursor, cursor + n),
        ActionView::Seek(_) => Seq::empty(),
        ActionView::Span(span) => replay_all(span.actions, data, cursor),
    }
}

/// The bytes of `data` that the reads of `actions` cover, in order, the
/// first of them beginning at `cursor`.
pub open spec fn replay_all(actions: Seq<ActionView>, data: Seq<u8>, cursor: int) -> Seq<u8>
    decreases actions,
{
    if actions.len() == 0 {
        Seq::empty()
    } else {
        replay_all(actions.drop_last(), data, cursor) + replay(
            actions.last(),
            data,
            cursor + total_read_all(actions.drop_last()),
        )
    }
}

/// Replayed from `cursor`, the reads of an action cover the data from
/// `cursor` on without gap or overlap, as far as the action reads.
pub proof fn lemma_replay_covers(action: ActionView, data: Seq<u8>, cursor: int)
    requires
        0 <= cursor,
        cursor + total_read(action) <= data.len(),
    ensures
        replay(action, data, cursor) == data.subrange(cursor, cursor + total_read(action)),
    decreases action,
{
    match action {
        ActionView::Read(_) => {},
        ActionView::Seek(_) => {
            assert(data.subrange(cursor, cursor) =~= Seq::<u8>::empty());
        },
        ActionView::Span(span) => {
            lemma_replay_covers_all(span.actions, data, cursor);
        },
    }
}

/// Replayed from `cursor`, the reads of a list of actions cover the data
/// from `cursor` on without gap or overlap, as far as the actions read.
pub proof fn lemma_replay_covers_all(actions: Seq<ActionView>, data: Seq<u8>, cursor: int)
    requires
        0 <= cursor,
        cursor + total_read_all(actions) <= data.len(),
    ensures
        replay_all(actions, data, cursor) == data.subrange(
            cursor,
            cursor + total_read_all(actions),
        ),
    decreases actions,
{
    if actions.len() == 0 {
        assert(data.subrange(cursor, cursor) =~= Seq::<u8>::empty());
    } else {
        let before = total_read_all(actions.drop_last());
        lemma_replay_covers_all(actions.drop_last(), data, cursor);
        lemma_replay_covers(actions.last(), data, cursor + before);
        assert(data.subrange(cursor, cursor + before) + data.subrange(
            cursor + before,
            cursor + total_read_all(actions),
        ) =~= data.subrange(cursor, cursor + total_read_all(actions)));
    }
}

/// Where a tree reads exactly as many bytes as the data holds, the byte
/// ranges of its reads, replayed from the start and put together in
/// order, are exactly the data.
pub proof fn lemma_replay_is_data(root: ActionView, data: Seq<u8>)
    requires
        total_read(root) == data.len(),
    ensures
        replay(root, data, 0) == data,
{
    lemma_replay_covers(root, data, 0);
    assert(data.subrange(0, data.len() as int) =~= data);
}

/// A walk that stays below a limit stays below every greater limit.
pub proof fn lemma_within_widen(action: ActionView, offset: int, limit: int, wider: int)
    requires
        within(action, offset, limit),
        limit <= wider,
    ensures
        within(action, offset, wider),
    decreases action,
{
    match action {
        ActionView::Span(span) => {
            lemma_within_widen_all(span.actions, offset, limit, wider);
        },
        _ => {},
    }
}

/// A walk over a list that stays below a limit stays below every greater
/// limit.
pub proof fn lemma_within_widen_all(
    actions: Seq<ActionView>,
    offset: int,
    limit: int,
    wider: int,
)
    requires
        within_all(actions, offset, limit),
        limit <= wider,
    ensures
        within_all(actions, offset, wider),
    decreases actions,
{
    if actions.len() > 0 {
        lemma_within_widen_all(actions.drop_last(), offset, limit, wider);
        lemma_within_widen(
            actions.last(),
            end_offset_all(actions.drop_last(), offset),
            limit,
            wider,
        );
    }
}

impl<S> ReadSpan<S> {
    /// A span of this name with no actions yet.
    pub fn new(name: &str) -> (span: Self)
        ensures
            span.name@ == name@,
            span.actions@ == Seq::<Action<S>>::empty(),
    {
        ReadSpan { name: name.to_owned(), actions: Vec::new() }
    }
}

impl Action<TreeSpan> {
    /// Walks this action from `offset` and returns the offset reached, or
    /// `None` if `offset` or an offset reached on the way is beyond
    /// `limit`.
    pub fn walk(&self, offset: usize, limit: usize) -> (end: Option<usize>)
        ensures
            end is Some <==> offset <= limit && within(self@, offset as int, limit as int),
            end is Some ==> end->0 == end_offset(self@, offset as int) && end->0 <= limit,
        decreases self@,
    {
        if offset > limit {
            return None;
        }
        match self {
            Action::Read(n) => {
                if *n <= limit - offset {
                    Some(offset + *n)
                } else {
                    None
                }
            },
            Action::Seek(o) => {
                if *o <= limit {
                    Some(*o)
                } else {
                    None
                }
            },
            Action::Span(span) => {
                let mut cur = offset;
                let mut i: usize = 0;
                while i < span.actions.len()
                    invariant
                        i <= span.actions.len(),
                        cur <= limit,
                        self@ == ActionView::Span(span@),
                        within_all(span@.actions.take(i as int), offset as int, limit as int),
                        cur == end_offset_all(span@.actions.take(i as int), offset as int),
                    decreases span.actions.len() - i,
                {
                    proof {
                        let upto = span@.actions.take(i + 1);
                        assert(upto.drop_last() =~= span@.actions.take(i as int));
                        assert(upto.last() == span.actions[i as int]@);
                        assert(decreases_to!(self@ => self@->Span_0));
                    }
                    match span.actions[i].walk(cur, limit) {
                        Some(next) => {
                            cur = next;
                        },
                        None => {
                            proof {
                                if within_all(span@.actions, offset as int, limit as int) {
                                    lemma_within_prefix(
                                        span@.actions,
                                        i + 1,
                                        offset as int,
                                        limit as int,
                                    );
                                }
                            }
                            return None;
                        },
                    }
                    i = i + 1;
                }
                proof {
                    assert(span@.actions.take(i as int) =~= span@.actions);
                }
                Some(cur)
            },
        }
    }
}

/// Why a text is not the stored form of data.
#[derive(Debug, Clone, Copy, PartialEq, Eq, Structural)]
pub enum DataError {
    /// At this position stands this byte, which base64 text cannot hold
    /// there.
    InvalidByte(usize, u8),
    /// The text has this many symbols, which is no length that base64 text
    /// has.
    InvalidLength(usize),
    /// The last symbol, at this position, is this one, and stands for these
    /// bits, of which the low ones encode nothing.
    InvalidLastSymbol(usize, u8, u8),
    /// The padding is missing or wrong.
    InvalidPadding,
}

/// The standard base64 text of `data`, with padding.
pub uninterp spec fn base64_text(data: Seq<u8>) -> Seq<char>;

/// The data that `text` is the standard base64 text of, or why it is none.
pub uninterp spec fn base64_data(text: Seq<char>) -> Result<Seq<u8>, DataError>;

/// `data` is short enough for its base64 text to be counted: four symbols
/// for every three bytes, the last ones filled up.
pub open spec fn encodable(data: Seq<u8>) -> bool {
    data.len() / 3 * 4 + (if data.len() % 3 > 0 {
        4int
    } else {
        0int
    }) <= usize::MAX
}

/// `Engine::encode` of the `base64` crate, on its standard engine: the
/// text of `data` in the standard alphabet, padded. It does not return for
/// data whose text is longer than can be counted.
#[verifier::external_body]
fn encode_standard(data: &[u8]) -> (text: String)
    requires
        encodable(data@),
    ensures
        text@ == base64_text(data@),
{
    BASE64_STANDARD.encode(data)
}

/// `Engine::decode` of the `base64` crate, on its standard engine: the
/// data that `text` encodes, or the error that the engine finds in it.
#[verifier::external_body]
fn decode_standard(text: &str) -> (data: Result<Vec<u8>, DataError>)
    ensures
        match data {
            Ok(data) => base64_data(text@) == Ok::<Seq<u8>, DataError>(data@),
            Err(error) => base64_data(text@) == Err::<Seq<u8>, DataError>(error),
        },
{
    match BASE64_STANDARD.decode(text) {
        Ok(data) => Ok(data),
        Err(DecodeError::InvalidByte(at, byte)) => Err(DataError::InvalidByte(at, byte)),
        Err(DecodeError::InvalidLength(len)) => Err(DataError::InvalidLength(len)),
        Err(DecodeError::InvalidLastSymbol { offset, symbol, symbol_value }) => Err(
            DataError::InvalidLastSymbol(offset, symbol, symbol_value),
        ),
        Err(DecodeError::InvalidPadding) => Err(DataError::InvalidPadding),
    }
}

impl Trace {
    /// The data as it is stored: in standard base64 text.
    pub fn data_text(&self) -> (text: String)
        requires
            encodable(self.data@),
        ensures
            text@ == base64_text(self.data@),
    {
        encode_standard(self.data.as_slice())
    }

    /// The trace that is stored as the data in `text`, the offset
    /// `start_index` and the tree `root`, or why `text` holds no data.
    pub fn from_stored(text: &str, start_index: usize, root: Action<TreeSpan>) -> (trace: Result<
        Trace,
        DataError,
    >)
        ensures
            match trace {
                Ok(trace) => {
                    &&& base64_data(text@) == Ok::<Seq<u8>, DataError>(trace.data@)
                    &&& trace.start_index == start_index
                    &&& trace.root == root
                },
                Err(error) => base64_data(text@) == Err::<Seq<u8>, DataError>(error),
            },
    {
        match decode_standard(text) {
            Ok(data) => Ok(Trace { data, start_index, root }),
            Err(error) => Err(error),
        }
    }
}

} // verus!
