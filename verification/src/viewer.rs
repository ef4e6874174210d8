//! What a viewer derives from a loaded trace: the tree annotated with byte
//! ranges, the flat interval records of its nodes, and the index that finds
//! the records overlapping an address or a range.

use vstd::prelude::*;
use vstd::multiset::Multiset;
use std::ops::Range;
use intervaltree::{Element, IntervalTree};
use crate::path::{
    be_bytes, be_value, index_width, lemma_be_bytes_len, lemma_be_round_trip, lemma_index_fits,
    lemma_index_width_positive, Path,
};
use crate::trace::{
    child_start, end_offset, end_offset_all, lemma_within_child, lemma_within_widen, within,
    within_all, Action, ActionView, TreeSpan,
};
use crate::tree::{child_path, layout, node_at, NodeView};

verus! {

/// One node of the tree, flattened: its byte range, the name of the span it
/// belongs to (its own name, for a span), and its path.
#[derive(Debug)]
pub struct FlatSpan {
    pub range: Range<usize>,
    pub name: String,
    pub path: Path,
}

/// Mathematical model of a flat record.
pub struct RecordView {
    pub start: int,
    pub end: int,
    pub name: Seq<char>,
    pub path: Seq<u8>,
}

impl View for FlatSpan {
    type V = RecordView;

    open spec fn view(&self) -> RecordView {
        RecordView {
            start: self.range.start as int,
            end: self.range.end as int,
            name: self.name@,
            path: self.path@,
        }
    }
}

/// The models of a list of records, in order.
pub open spec fn record_views(records: Seq<FlatSpan>) -> Seq<RecordView> {
    records.map_values(|r: FlatSpan| r@)
}

/// The records of `action`, entered at `offset`, reached by `path`, inside
/// a span called `name`: one for a read, none for a seek; for a span, the
/// records of its actions in order, then one for the span itself.
pub open spec fn records(
    action: ActionView,
    offset: int,
    path: Seq<u8>,
    name: Seq<char>,
) -> Seq<RecordView>
    decreases action,
{
    match action {
        ActionView::Read(n) => seq![RecordView { start: offset, end: offset + n, name, path }],
        ActionView::Seek(_) => Seq::empty(),
        ActionView::Span(span) => records_upto(
            span.actions,
            span.actions.len(),
            offset,
            path,
            span.name,
        ).push(
            RecordView {
                start: offset,
                end: end_offset_all(span.actions, offset),
                name: span.name,
                path,
            },
        ),
    }
}

/// The records of the first `count` of the `actions` of a span entered at
/// `offset`, reached by `path` and called `name`.
pub open spec fn records_upto(
    actions: Seq<ActionView>,
    count: nat,
    offset: int,
    path: Seq<u8>,
    name: Seq<char>,
) -> Seq<RecordView>
    decreases actions, count,
{
    if count == 0 || count > actions.len() {
        Seq::empty()
    } else {
        records_upto(actions, (count - 1) as nat, offset, path, name) + records(
            actions[count - 1],
            child_start(actions, count - 1, offset),
            child_path(path, actions.len(), count - 1),
            name,
        )
    }
}

/// `record` is the record of the node that `rest` leads to from `node`:
/// it has the range and the identifier of that node.
pub open spec fn record_of_node(record: RecordView, node: NodeView, rest: Seq<u8>) -> bool {
    node_at(node, rest) matches Some(found) && found.identifier == record.path && found.start
        == record.start && found.end == record.end
}

/// Every record of a tree belongs to a node of its layout: its path
/// begins with the path of the root and leads from the root to a node
/// that has the range and the identifier of the record.
pub proof fn lemma_record_is_node(
    action: ActionView,
    offset: int,
    path: Seq<u8>,
    name: Seq<char>,
    i: int,
)
    requires
        0 <= i < records(action, offset, path, name).len(),
    ensures
        ({
            let record = records(action, offset, path, name)[i];
            &&& record.path.len() >= path.len()
            &&& record.path.subrange(0, path.len() as int) == path
            &&& record_of_node(
                record,
                layout(action, offset, path),
                record.path.subrange(path.len() as int, record.path.len() as int),
            )
        }),
    decreases action, 0nat,
{
    let record = records(action, offset, path, name)[i];
    match action {
        ActionView::Read(_) => {
            assert(record.path.subrange(0, path.len() as int) =~= path);
            assert(record.path.subrange(path.len() as int, record.path.len() as int)
                =~= Seq::<u8>::empty());
        },
        ActionView::Seek(_) => {},
        ActionView::Span(span) => {
            let count = span.actions.len();
            let below = records_upto(span.actions, count, offset, path, span.name);
            if i < below.len() {
                lemma_record_below(span.actions, count, offset, path, span.name, i);
                let k = choose|k: int|
                    0 <= k < count && record_under(span.actions, k, offset, path, record);
                let node = layout(action, offset, path);
                let step = be_bytes(k as nat, index_width(count));
                let child = child_path(path, count, k);
                let rest = record.path.subrange(child.len() as int, record.path.len() as int);
                lemma_be_bytes_len(k as nat, index_width(count));
                lemma_index_fits(count, k as nat);
                lemma_index_width_positive(count);
                lemma_be_round_trip(k as nat, index_width(count));
                let whole = record.path.subrange(path.len() as int, record.path.len() as int);
                assert(record.path =~= child + rest);
                assert(whole =~= step + rest);
                assert(whole.subrange(0, step.len() as int) =~= step);
                assert(whole.subrange(step.len() as int, whole.len() as int) =~= rest);
                assert(record.path.subrange(0, path.len() as int) =~= path);
                assert(node.children[k] == layout(
                    span.actions[k],
                    child_start(span.actions, k, offset),
                    child,
                ));
            } else {
                assert(record.path.subrange(0, path.len() as int) =~= path);
                assert(record.path.subrange(path.len() as int, record.path.len() as int)
                    =~= Seq::<u8>::empty());
            }
        },
    }
}

/// `record` is the record of a node in or below action `k` of a span
/// entered at `offset` and reached by `path`.
pub open spec fn record_under(
    actions: Seq<ActionView>,
    k: int,
    offset: int,
    path: Seq<u8>,
    record: RecordView,
) -> bool {
    let child = child_path(path, actions.len(), k);
    &&& record.path.len() >= child.len()
    &&& record.path.subrange(0, child.len() as int) == child
    &&& record_of_node(
        record,
        layout(actions[k], child_start(actions, k, offset), child),
        record.path.subrange(child.len() as int, record.path.len() as int),
    )
}

/// Every record of the first `count` actions of a span belongs to a node
/// in or below one of them.
proof fn lemma_record_below(
    actions: Seq<ActionView>,
    count: nat,
    offset: int,
    path: Seq<u8>,
    name: Seq<char>,
    i: int,
)
    requires
        count <= actions.len(),
        0 <= i < records_upto(actions, count, offset, path, name).len(),
    ensures
        exists|k: int|
            0 <= k < count && record_under(
                actions,
                k,
                offset,
                path,
                records_upto(actions, count, offset, path, name)[i],
            ),
    decreases actions, count,
{
    let before = records_upto(actions, (count - 1) as nat, offset, path, name);
    if i < before.len() {
        lemma_record_below(actions, (count - 1) as nat, offset, path, name, i);
        let k = choose|k: int|
            0 <= k < count - 1 && record_under(actions, k, offset, path, before[i]);
        assert(record_under(
            actions,
            k,
            offset,
            path,
            records_upto(actions, count, offset, path, name)[i],
        ));
    } else {
        let k = count - 1;
        lemma_record_is_node(
            actions[k],
            child_start(actions, k, offset),
            child_path(path, actions.len(), k),
            name,
            i - before.len(),
        );
        assert(record_under(
            actions,
            k,
            offset,
            path,
            records_upto(actions, count, offset, path, name)[i],
        ));
    }
}

impl Action<TreeSpan> {
    /// Appends to `spans` the records of this action, entered at `*index`,
    /// reached by `path`, inside a span called `name`; leaves in `*index`
    /// the offset reached.
    pub fn collect_spans(
        &self,
        index: &mut usize,
        path: &mut Path,
        spans: &mut Vec<FlatSpan>,
        name: &str,
    )
        requires
            within(self@, *old(index) as int, usize::MAX as int),
        ensures
            record_views(final(spans)@) == record_views(old(spans)@) + records(
                self@,
                *old(index) as int,
                old(path)@,
                name@,
            ),
            *final(index) == end_offset(self@, *old(index) as int),
            final(path)@ == old(path)@,
        decreases self@,
    {
        let start = *index;
        match self {
            Action::Read(size) => {
                spans.push(
                    FlatSpan {
                        range: start..start + *size,
                        name: name.to_owned(),
                        path: path.copy(),
                    },
                );
                *index = start + *size;
                proof {
                    assert(record_views(spans@) =~= record_views(old(spans)@) + records(
                        self@,
                        start as int,
                        old(path)@,
                        name@,
                    ));
                }
            },
            Action::Seek(to) => {
                *index = *to;
                proof {
                    assert(record_views(spans@) =~= record_views(old(spans)@) + records(
                        self@,
                        start as int,
                        old(path)@,
                        name@,
                    ));
                }
            },
            Action::Span(span) => {
                let count = span.actions.len();
                let mut i: usize = 0;
                while i < count
                    invariant
                        i <= count == span.actions.len(),
                        self@ == ActionView::Span(span@),
                        within_all(span@.actions, start as int, usize::MAX as int),
                        *index == child_start(span@.actions, i as int, start as int),
                        path@ == old(path)@,
                        record_views(spans@) == record_views(old(spans)@) + records_upto(
                            span@.actions,
                            i as nat,
                            start as int,
                            old(path)@,
                            span.name@,
                        ),
                    decreases count - i,
                {
                    proof {
                        lemma_within_child(
                            span@.actions,
                            i as int,
                            start as int,
                            usize::MAX as int,
                        );
                        assert(span@.actions.take(i + 1).drop_last() =~= span@.actions.take(
                            i as int,
                        ));
                        assert(decreases_to!(self@ => self@->Span_0));
                        lemma_be_bytes_len(i as nat, index_width(count as nat));
                    }
                    let ghost before = spans@;
                    path.push(count, i);
                    span.actions[i].collect_spans(index, path, spans, span.name.as_str());
                    path.pop(count);
                    proof {
                        assert(path@ =~= old(path)@);
                        assert(record_views(spans@) =~= record_views(old(spans)@) + records_upto(
                            span@.actions,
                            (i + 1) as nat,
                            start as int,
                            old(path)@,
                            span.name@,
                        ));
                    }
                    i = i + 1;
                }
                proof {
                    assert(span@.actions.take(count as int) =~= span@.actions);
                }
                let ghost before = spans@;
                spans.push(
                    FlatSpan { range: start..*index, name: span.name.clone(), path: path.copy() },
                );
                proof {
                    assert(record_views(spans@) =~= record_views(before).push(
                        spans@.last()@,
                    ));
                    assert(record_views(spans@) =~= record_views(old(spans)@) + records(
                        self@,
                        start as int,
                        old(path)@,
                        name@,
                    ));
                }
            },
        }
    }
}

/// An action annotated with the offsets that the walk gives it.
#[derive(Debug)]
pub enum FullAction {
    /// A read of the bytes in this range.
    Read(Range<usize>),
    /// A seek from the first offset to the second.
    Seek(usize, usize),
    /// A nested span.
    Span(FullTreeSpan),
}

/// A span whose actions are annotated with offsets.
#[derive(Debug)]
pub struct FullTreeSpan {
    pub name: String,
    pub actions: Vec<FullAction>,
}

/// Mathematical model of an annotated action.
pub enum FullActionView {
    Read(int, int),
    Seek(int, int),
    Span(FullSpanView),
}

/// Mathematical model of an annotated span.
pub struct FullSpanView {
    pub name: Seq<char>,
    pub actions: Seq<FullActionView>,
}

/// The model of an annotated span: its name and the models of its actions.
pub open spec fn full_span_model(span: FullTreeSpan) -> FullSpanView
    decreases span,
{
    FullSpanView {
        name: span.name@,
        actions: Seq::new(
            span.actions.len() as nat,
            |i: int|
                if 0 <= i < span.actions.len() {
                    full_action_model(span.actions[i])
                } else {
                    FullActionView::Read(0, 0)
                },
        ),
    }
}

/// The model of an annotated action.
pub open spec fn full_action_model(action: FullAction) -> FullActionView
    decreases action,
{
    match action {
        FullAction::Read(range) => FullActionView::Read(range.start as int, range.end as int),
        FullAction::Seek(from, to) => FullActionView::Seek(from as int, to as int),
        FullAction::Span(span) => FullActionView::Span(full_span_model(span)),
    }
}

impl View for FullTreeSpan {
    type V = FullSpanView;

    open spec fn view(&self) -> FullSpanView {
        full_span_model(*self)
    }
}

impl View for FullAction {
    type V = FullActionView;

    open spec fn view(&self) -> FullActionView {
        full_action_model(*self)
    }
}

/// `action`, entered at `offset`, with its offsets written out: a read
/// covers the bytes from `offset` on, a seek leaves `offset` for its target,
/// and action `k` of a span is entered where the walk through the actions
/// before it ends.
pub open spec fn annotate(action: ActionView, offset: int) -> FullActionView
    decreases action,
{
    match action {
        ActionView::Read(n) => FullActionView::Read(offset, offset + n),
        ActionView::Seek(to) => FullActionView::Seek(offset, to as int),
        ActionView::Span(span) => FullActionView::Span(
            FullSpanView {
                name: span.name,
                actions: Seq::new(
                    span.actions.len(),
                    |k: int|
                        if 0 <= k < span.actions.len() {
                            annotate(span.actions[k], child_start(span.actions, k, offset))
                        } else {
                            FullActionView::Read(0, 0)
                        },
                ),
            },
        ),
    }
}

impl Action<TreeSpan> {
    /// This action, entered at `*index`, annotated with offsets; leaves in
    /// `*index` the offset reached.
    pub fn build_full_actions(&self, index: &mut usize) -> (full: FullAction)
        requires
            within(self@, *old(index) as int, usize::MAX as int),
        ensures
            full@ == annotate(self@, *old(index) as int),
            *final(index) == end_offset(self@, *old(index) as int),
        decreases self@,
    {
        let start = *index;
        match self {
            Action::Read(size) => {
                *index = start + *size;
                FullAction::Read(start..*index)
            },
            Action::Seek(to) => {
                *index = *to;
                FullAction::Seek(start, *index)
            },
            Action::Span(span) => {
                let count = span.actions.len();
                let mut actions: Vec<FullAction> = Vec::new();
                let mut i: usize = 0;
                while i < count
                    invariant
                        i <= count == span.actions.len(),
                        self@ == ActionView::Span(span@),
                        within_all(span@.actions, start as int, usize::MAX as int),
                        *index == child_start(span@.actions, i as int, start as int),
                        actions.len() == i,
                        forall|k: int|
                            0 <= k < i ==> (#[trigger] actions[k])@ == annotate(
                                span@.actions[k],
                                child_start(span@.actions, k, start as int),
                            ),
                    decreases count - i,
                {
                    proof {
                        lemma_within_child(
                            span@.actions,
                            i as int,
                            start as int,
                            usize::MAX as int,
                        );
                        assert(span@.actions.take(i + 1).drop_last() =~= span@.actions.take(
                            i as int,
                        ));
                        assert(decreases_to!(self@ => self@->Span_0));
                    }
                    let child = span.actions[i].build_full_actions(index);
                    actions.push(child);
                    i = i + 1;
                }
                proof {
                    assert(span@.actions.take(count as int) =~= span@.actions);
                }
                let full = FullTreeSpan { name: span.name.clone(), actions };
                proof {
                    assert(full@.actions =~= annotate(self@, start as int)->Span_0.actions);
                }
                FullAction::Span(full)
            },
        }
    }
}

/// The interval tree of the `intervaltree` crate, carried as an opaque value.
#[verifier::external_type_specification]
#[verifier::external_body]
#[verifier::reject_recursive_types(K)]
#[verifier::reject_recursive_types(V)]
pub struct ExIntervalTree<K, V>(IntervalTree<K, V>);

/// The elements that an interval tree holds, each as (range start, range
/// end, value).
pub uninterp spec fn tree_elements(tree: IntervalTree<usize, usize>) -> Multiset<
    (usize, usize, usize),
>;

/// An element whose range overlaps the range from `start` to `end`, as
/// `IntervalTree::query` decides it.
pub open spec fn overlaps_range(element: (usize, usize, usize), start: usize, end: usize) -> bool {
    element.0 < end && start < element.1
}

/// An element whose range holds `point`, as `IntervalTree::query_point`
/// decides it.
pub open spec fn holds_point(element: (usize, usize, usize), point: usize) -> bool {
    element.0 <= point && point < element.1
}

/// `IntervalTree::from_iter` of the `intervaltree` crate: the tree built
/// holds exactly the elements handed over, each once for each time it was
/// given.
#[verifier::external_body]
fn tree_from_elements(elements: &Vec<(usize, usize, usize)>) -> (tree: IntervalTree<usize, usize>)
    ensures
        tree_elements(tree) == elements@.to_multiset(),
{
    elements.iter().map(|e| Element { range: e.0..e.1, value: e.2 }).collect()
}

/// `IntervalTree::query` of the `intervaltree` crate: yields, in an order
/// that is not fixed, each element of the tree whose range begins before
/// the end of the queried range and ends after its start.
#[verifier::external_body]
fn tree_query(tree: &IntervalTree<usize, usize>, start: usize, end: usize) -> (found: Vec<
    (usize, usize, usize),
>)
    ensures
        found@.to_multiset() == tree_elements(*tree).filter(
            |e: (usize, usize, usize)| overlaps_range(e, start, end),
        ),
{
    tree.query(start..end).map(|e| (e.range.start, e.range.end, e.value)).collect()
}

/// `IntervalTree::query_point` of the `intervaltree` crate: yields, in an
/// order that is not fixed, each element of the tree whose range begins at
/// or before the point and ends after it.
#[verifier::external_body]
fn tree_query_point(tree: &IntervalTree<usize, usize>, point: usize) -> (found: Vec<
    (usize, usize, usize),
>)
    ensures
        found@.to_multiset() == tree_elements(*tree).filter(
            |e: (usize, usize, usize)| holds_point(e, point),
        ),
{
    tree.query_point(point).map(|e| (e.range.start, e.range.end, e.value)).collect()
}

/// The element that stands in the tree for record `i`.
pub open spec fn element_of(records: Seq<FlatSpan>, i: int) -> (usize, usize, usize) {
    (records[i].range.start, records[i].range.end, i as usize)
}

/// The elements that stand in the tree for `records`.
pub open spec fn elements_of(records: Seq<FlatSpan>) -> Seq<(usize, usize, usize)> {
    Seq::new(records.len(), |i: int| element_of(records, i))
}

/// The flat records of a tree and the interval tree that finds them by
/// byte range.
pub struct IntervalIndex {
    records: Vec<FlatSpan>,
    tree: IntervalTree<usize, usize>,
}

/// What a query of the interval tree yields are elements that stand for
/// records, each once, and all of those that the query keeps.
proof fn lemma_found_are_records(
    records: Seq<FlatSpan>,
    found: Seq<(usize, usize, usize)>,
    keep: spec_fn((usize, usize, usize)) -> bool,
)
    requires
        records.len() <= usize::MAX,
        found.to_multiset() == elements_of(records).to_multiset().filter(keep),
    ensures
        found.no_duplicates(),
        forall|k: int|
            0 <= k < found.len() ==> {
                &&& 0 <= (#[trigger] found[k]).2 < records.len()
                &&& found[k] == element_of(records, found[k].2 as int)
                &&& keep(found[k])
            },
        forall|i: int|
            0 <= i < records.len() && keep(element_of(records, i)) ==> found.contains(
                #[trigger] element_of(records, i),
            ),
{
    let elements = elements_of(records);
    found.to_multiset_ensures();
    elements.to_multiset_ensures();
    assert forall|i: int, j: int|
        0 <= i < elements.len() && 0 <= j < elements.len() && i != j implies elements[i]
        != elements[j] by {
        assert(elements[i].2 == i);
        assert(elements[j].2 == j);
    }
    elements.lemma_multiset_has_no_duplicates();
    assert forall|x: (usize, usize, usize)| found.to_multiset().contains(x) implies found.to_multiset().count(
        x,
    ) == 1 by {
        assert(elements.to_multiset().count(x) > 0);
    }
    found.lemma_multiset_has_no_duplicates_conv();
    assert forall|k: int| 0 <= k < found.len() implies {
        &&& 0 <= (#[trigger] found[k]).2 < records.len()
        &&& found[k] == element_of(records, found[k].2 as int)
        &&& keep(found[k])
    } by {
        assert(found.to_multiset().count(found[k]) > 0);
        assert(elements.to_multiset().count(found[k]) > 0);
        assert(elements.contains(found[k]));
        let i = choose|i: int| 0 <= i < elements.len() && elements[i] == found[k];
        assert(found[k] == element_of(records, i));
    }
    assert forall|i: int|
        0 <= i < records.len() && keep(element_of(records, i)) implies found.contains(
        #[trigger] element_of(records, i),
    ) by {
        assert(elements[i] == element_of(records, i));
        assert(elements.contains(elements[i]));
        assert(elements.to_multiset().count(elements[i]) > 0);
        assert(found.to_multiset().count(elements[i]) > 0);
    }
}

impl IntervalIndex {
    /// The interval tree holds exactly one element for each record.
    #[verifier::type_invariant]
    spec fn tree_holds_records(&self) -> bool {
        tree_elements(self.tree) == elements_of(self.records@).to_multiset()
    }

    /// The records of the index, in the order in which they were collected.
    pub closed spec fn records(&self) -> Seq<FlatSpan> {
        self.records@
    }

    /// Number of records.
    pub fn len(&self) -> (n: usize)
        ensures
            n == self.records().len(),
    {
        self.records.len()
    }

    /// Record `i`.
    pub fn record(&self, i: usize) -> (r: &FlatSpan)
        requires
            i < self.records().len(),
        ensures
            *r == self.records()[i as int],
    {
        &self.records[i]
    }

    /// An index over `records`.
    pub fn from_records(records: Vec<FlatSpan>) -> (index: Self)
        ensures
            index.records() == records@,
    {
        let mut elements: Vec<(usize, usize, usize)> = Vec::new();
        let mut i: usize = 0;
        while i < records.len()
            invariant
                i <= records.len(),
                elements.len() == i,
                forall|k: int| 0 <= k < i ==> #[trigger] elements[k] == element_of(records@, k),
            decreases records.len() - i,
        {
            elements.push((records[i].range.start, records[i].range.end, i));
            i = i + 1;
        }
        proof {
            assert(elements@ =~= elements_of(records@));
        }
        let tree = tree_from_elements(&elements);
        IntervalIndex { records, tree }
    }

    /// The positions of the records that the elements `found` stand for.
    fn positions(&self, found: Vec<(usize, usize, usize)>, Ghost(keep): Ghost<
        spec_fn((usize, usize, usize)) -> bool,
    >) -> (hits: Vec<usize>)
        requires
            found@.to_multiset() == elements_of(self.records()).to_multiset().filter(keep),
        ensures
            hits@.no_duplicates(),
            forall|k: int|
                0 <= k < hits.len() ==> (#[trigger] hits[k]) < self.records().len() && keep(
                    element_of(self.records(), hits[k] as int),
                ),
            forall|i: int|
                0 <= i < self.records().len() && keep(#[trigger] element_of(self.records(), i))
                    ==> hits@.contains(i as usize),
    {
        let count = self.records.len();
        proof {
            lemma_found_are_records(self.records@, found@, keep);
        }
        let mut hits: Vec<usize> = Vec::new();
        let mut k: usize = 0;
        while k < found.len()
            invariant
                k <= found.len(),
                hits.len() == k,
                forall|j: int| 0 <= j < k ==> #[trigger] hits[j] == found[j].2,
            decreases found.len() - k,
        {
            hits.push(found[k].2);
            k = k + 1;
        }
        proof {
            assert forall|i: int|
                0 <= i < self.records().len() && keep(
                    #[trigger] element_of(self.records(), i),
                ) implies hits@.contains(i as usize) by {
                let e = element_of(self.records(), i);
                assert(found@.contains(e));
                let j = choose|j: int| 0 <= j < found.len() && found[j] == e;
                assert(hits[j] == i);
            }
        }
        hits
    }

    /// The positions of the records whose range holds `address`: each such
    /// record once, in no fixed order.
    pub fn query_point(&self, address: usize) -> (hits: Vec<usize>)
        ensures
            hits@.no_duplicates(),
            forall|k: int|
                0 <= k < hits.len() ==> (#[trigger] hits[k]) < self.records().len()
                    && holds_point(element_of(self.records(), hits[k] as int), address),
            forall|i: int|
                0 <= i < self.records().len() && holds_point(
                    #[trigger] element_of(self.records(), i),
                    address,
                ) ==> hits@.contains(i as usize),
    {
        proof {
            use_type_invariant(self);
        }
        let found = tree_query_point(&self.tree, address);
        self.positions(found, Ghost(|e: (usize, usize, usize)| holds_point(e, address)))
    }

    /// The positions of the records whose range overlaps `range`: each such
    /// record once, in no fixed order.
    pub fn query(&self, range: Range<usize>) -> (hits: Vec<usize>)
        ensures
            hits@.no_duplicates(),
            forall|k: int|
                0 <= k < hits.len() ==> (#[trigger] hits[k]) < self.records().len()
                    && overlaps_range(
                    element_of(self.records(), hits[k] as int),
                    range.start,
                    range.end,
                ),
            forall|i: int|
                0 <= i < self.records().len() && overlaps_range(
                    #[trigger] element_of(self.records(), i),
                    range.start,
                    range.end,
                ) ==> hits@.contains(i as usize),
    {
        proof {
            use_type_invariant(self);
        }
        let found = tree_query(&self.tree, range.start, range.end);
        self.positions(
            found,
            Ghost(|e: (usize, usize, usize)| overlaps_range(e, range.start, range.end)),
        )
    }
}

impl Action<TreeSpan> {
    /// The index over the records of this action, entered at offset 0 as
    /// the root of its tree, inside a span called "root".
    pub fn build_tree(&self) -> (index: IntervalIndex)
        requires
            within(self@, 0, usize::MAX as int),
        ensures
            record_views(index.records()) == records(self@, 0, Seq::empty(), "root"@),
    {
        let mut index: usize = 0;
        let mut spans: Vec<FlatSpan> = Vec::new();
        let mut path = Path::new();
        self.collect_spans(&mut index, &mut path, &mut spans, "root");
        proof {
            assert(record_views(spans@) =~= records(self@, 0, Seq::empty(), "root"@));
        }
        IntervalIndex::from_records(spans)
    }
}

/// Why a trace cannot be viewed.
#[derive(Debug, Clone, Copy, PartialEq, Eq, Structural)]
pub enum LoadError {
    /// Walking the tree from offset 0 reaches an offset beyond the end of
    /// the data.
    OutsideData,
}

/// A trace made ready for viewing: its data, its tree annotated with
/// offsets, and the index over its records.
pub struct Trace {
    pub data: Vec<u8>,
    pub full_tree: FullAction,
    pub interval_tree: IntervalIndex,
}

impl Trace {
    /// Makes `trace` ready for viewing. A trace whose tree, walked from
    /// offset 0, reaches beyond its data is refused, and nothing is built
    /// from it.
    pub fn load(trace: crate::trace::Trace) -> (loaded: Result<Trace, LoadError>)
        ensures
            loaded is Ok <==> within(trace.root@, 0, trace.data@.len() as int),
            loaded matches Ok(view) ==> {
                &&& view.data@ == trace.data@
                &&& view.full_tree@ == annotate(trace.root@, 0)
                &&& record_views(view.interval_tree.records()) == records(
                    trace.root@,
                    0,
                    Seq::empty(),
                    "root"@,
                )
            },
            loaded matches Err(e) ==> e == LoadError::OutsideData,
    {
        let limit = trace.data.len();
        match trace.root.walk(0, limit) {
            None => Err(LoadError::OutsideData),
            Some(_) => {
                proof {
                    lemma_within_widen(trace.root@, 0, limit as int, usize::MAX as int);
                }
                let interval_tree = trace.root.build_tree();
                let mut index: usize = 0;
                let full_tree = trace.root.build_full_actions(&mut index);
                Ok(Trace { data: trace.data, full_tree, interval_tree })
            },
        }
    }
}

/// The actions passed on the way from `node` along the path `rest`, first
/// `node` itself, last the action that the path leads to. The path leads
/// nowhere where it goes on below a read or a seek, ends inside an index,
/// or names an action that is not there.
pub open spec fn trail(node: FullActionView, rest: Seq<u8>) -> Option<Seq<FullActionView>>
    decreases node,
{
    if rest.len() == 0 {
        Some(seq![node])
    } else {
        match node {
            FullActionView::Span(span) => {
                let width = index_width(span.actions.len()) as int;
                if rest.len() < width {
                    None
                } else {
                    let index = be_value(rest.subrange(0, width)) as int;
                    if index < span.actions.len() {
                        match trail(
                            span.actions[index],
                            rest.subrange(width, rest.len() as int),
                        ) {
                            Some(below) => Some(seq![node] + below),
                            None => None,
                        }
                    } else {
                        None
                    }
                }
            },
            _ => None,
        }
    }
}

/// The models of a list of actions, in order.
pub open spec fn full_views(actions: Seq<&FullAction>) -> Seq<FullActionView> {
    actions.map_values(|a: &FullAction| a@)
}

impl FullAction {
    /// Appends to `passed` the actions on the way from this action along
    /// `path`; returns whether the path leads somewhere.
    fn follow<'a>(&'a self, path: Path<&[u8]>, passed: &mut Vec<&'a FullAction>) -> (found: bool)
        ensures
            found == trail(self@, path@) is Some,
            found ==> full_views(final(passed)@) == full_views(old(passed)@) + trail(
                self@,
                path@,
            )->0,
        decreases self@,
    {
        passed.push(self);
        proof {
            assert(full_views(passed@) =~= full_views(old(passed)@) + seq![self@]);
        }
        if path.len() == 0 {
            return true;
        }
        match self {
            FullAction::Span(span) => {
                let count = span.actions.len();
                let width = crate::path::width_of(count);
                if path.len() < width {
                    return false;
                }
                let (index, rest) = path.split_next(count);
                if index < count {
                    proof {
                        assert(decreases_to!(self@ => self@->Span_0));
                    }
                    let found = span.actions[index].follow(rest, passed);
                    proof {
                        if found {
                            assert(full_views(passed@) =~= full_views(old(passed)@) + trail(
                                self@,
                                path@,
                            )->0);
                        }
                    }
                    found
                } else {
                    false
                }
            },
            _ => false,
        }
    }

    /// The actions passed on the way from this action along `path`, this
    /// action first and the one that the path leads to last, or `None`
    /// where the path leads nowhere.
    pub fn trail<'a>(&'a self, path: &Path) -> (passed: Option<Vec<&'a FullAction>>)
        ensures
            passed is Some <==> trail(self@, path@) is Some,
            passed is Some ==> full_views(passed->0@) == trail(self@, path@)->0,
    {
        let mut passed: Vec<&'a FullAction> = Vec::new();
        if self.follow(path.as_slice(), &mut passed) {
            proof {
                assert(full_views(passed@) =~= trail(self@, path@)->0);
            }
            Some(passed)
        } else {
            None
        }
    }
}

} // verus!
