//! The laid-out tree: every action of a trace with its byte range and its
//! path.

use vstd::prelude::*;
use crate::path::{
    be_bytes, be_value, index_width, lemma_ancestor_order, lemma_be_bytes_len,
    lemma_be_bytes_of_value, lemma_be_round_trip, lemma_index_fits, lemma_index_width_positive,
    lemma_sibling_order, lex_less, Path,
};
use crate::trace::{
    child_start, end_offset, lemma_seek_free_end_all, lemma_seek_free_prefix, lemma_within_child,
    seek_free, total_read, total_read_all, within, within_all, Action, ActionView, Trace,
    TreeSpan,
};

verus! {

/// One action of a trace, laid out: where it begins and ends, how it is
/// reached from the root, and the laid-out actions nested in it.
#[derive(Debug)]
pub struct TraceNode<'trace> {
    pub identifier: Path,
    pub start: usize,
    pub end: usize,
    pub action: &'trace Action<TreeSpan>,
    pub children: Vec<TraceNode<'trace>>,
}

/// A trace together with its laid-out tree.
#[derive(Debug)]
pub struct TraceTree<'trace> {
    pub trace: &'trace Trace,
    pub root: TraceNode<'trace>,
}

/// Mathematical model of a laid-out action.
pub struct NodeView {
    pub identifier: Seq<u8>,
    pub start: int,
    pub end: int,
    pub action: ActionView,
    pub children: Seq<NodeView>,
}

/// The model of a laid-out action: its identifier, its range, its action,
/// and the models of the laid-out actions nested in it.
pub open spec fn node_model<'trace>(node: TraceNode<'trace>) -> NodeView
    decreases node,
{
    NodeView {
        identifier: node.identifier@,
        start: node.start as int,
        end: node.end as int,
        action: node.action@,
        children: Seq::new(
            node.children.len() as nat,
            |i: int|
                if 0 <= i < node.children.len() {
                    node_model(node.children[i])
                } else {
                    NodeView {
                        identifier: Seq::empty(),
                        start: 0,
                        end: 0,
                        action: ActionView::Read(0),
                        children: Seq::empty(),
                    }
                },
        ),
    }
}

impl<'trace> View for TraceNode<'trace> {
    type V = NodeView;

    open spec fn view(&self) -> NodeView {
        node_model(*self)
    }
}

/// The path of child `k` of a node at `path` that has `count` children.
pub open spec fn child_path(path: Seq<u8>, count: nat, k: int) -> Seq<u8> {
    path + be_bytes(k as nat, index_width(count))
}

/// The layout of `action` entered at `offset` and reached by `path`. The
/// node spans from `offset` to the offset reached after the action; child
/// `k` of a span begins where the walk through the children before it ends.
pub open spec fn layout(action: ActionView, offset: int, path: Seq<u8>) -> NodeView
    decreases action,
{
    NodeView {
        identifier: path,
        start: offset,
        end: end_offset(action, offset),
        action,
        children: match action {
            ActionView::Span(span) => Seq::new(
                span.actions.len(),
                |k: int|
                    if 0 <= k < span.actions.len() {
                        layout(
                            span.actions[k],
                            child_start(span.actions, k, offset),
                            child_path(path, span.actions.len(), k),
                        )
                    } else {
                        NodeView {
                            identifier: Seq::empty(),
                            start: 0,
                            end: 0,
                            action: ActionView::Read(0),
                            children: Seq::empty(),
                        }
                    },
            ),
            _ => Seq::empty(),
        },
    }
}

/// Every node with children spans from where its first child begins to
/// where its last child ends.
pub open spec fn nested(node: NodeView) -> bool
    decreases node,
{
    &&& node.children.len() > 0 ==> {
        &&& node.start == node.children.first().start
        &&& node.end == node.children.last().end
    }
    &&& forall|k: int| 0 <= k < node.children.len() ==> nested(#[trigger] node.children[k])
}

/// In a layout, every span that holds actions spans exactly from the start
/// of its first child to the end of its last child.
pub proof fn lemma_layout_nested(action: ActionView, offset: int, path: Seq<u8>)
    ensures
        nested(layout(action, offset, path)),
    decreases action,
{
    let node = layout(action, offset, path);
    match action {
        ActionView::Span(span) => {
            let count = span.actions.len();
            if count > 0 {
                reveal_with_fuel(layout, 2);
                assert(span.actions.take(0) =~= Seq::<ActionView>::empty());
                assert(span.actions.take(count - 1) =~= span.actions.drop_last());
            }
            assert forall|k: int| 0 <= k < node.children.len() implies nested(
                #[trigger] node.children[k],
            ) by {
                lemma_layout_nested(
                    span.actions[k],
                    child_start(span.actions, k, offset),
                    child_path(path, count, k),
                );
            }
        },
        _ => {},
    }
}

/// Lays out `action`, entered at `*offset` and reached by `path`; leaves
/// in `*offset` the offset reached, and `path` as it was.
fn convert<'trace>(
    offset: &mut usize,
    action: &'trace Action<TreeSpan>,
    path: &mut Path,
) -> (node: TraceNode<'trace>)
    requires
        within(action@, *old(offset) as int, usize::MAX as int),
    ensures
        node@ == layout(action@, *old(offset) as int, old(path)@),
        *final(offset) == end_offset(action@, *old(offset) as int),
        final(path)@ == old(path)@,
    decreases action@,
{
    let start = *offset;
    let mut children: Vec<TraceNode<'trace>> = Vec::new();
    match action {
        Action::Read(size) => {
            *offset = *offset + *size;
        },
        Action::Seek(to) => {
            *offset = *to;
        },
        Action::Span(span) => {
            let count = span.actions.len();
            let mut i: usize = 0;
            while i < count
                invariant
                    i <= count == span.actions.len(),
                    action@ == ActionView::Span(span@),
                    within_all(span@.actions, start as int, usize::MAX as int),
                    *offset == child_start(span@.actions, i as int, start as int),
                    path@ == old(path)@,
                    children.len() == i,
                    forall|k: int|
                        0 <= k < i ==> (#[trigger] children[k])@ == layout(
                            span@.actions[k],
                            child_start(span@.actions, k, start as int),
                            child_path(old(path)@, count as nat, k),
                        ),
                decreases count - i,
            {
                proof {
                    lemma_within_child(span@.actions, i as int, start as int, usize::MAX as int);
                    assert(span@.actions.take(i + 1).drop_last() =~= span@.actions.take(i as int));
                    assert(decreases_to!(action@ => action@->Span_0));
                    lemma_be_bytes_len(i as nat, index_width(count as nat));
                }
                path.push(count, i);
                let child = convert(offset, &span.actions[i], path);
                path.pop(count);
                proof {
                    assert(path@ =~= old(path)@);
                }
                children.push(child);
                i = i + 1;
            }
            proof {
                assert(span@.actions.take(count as int) =~= span@.actions);
            }
        },
    }
    let node = TraceNode { identifier: path.copy(), start, end: *offset, action, children };
    proof {
        assert(node@.children =~= layout(action@, start as int, old(path)@).children);
    }
    node
}

impl<'trace> TraceTree<'trace> {
    /// Lays out the tree of `trace`, the root entered at the offset at
    /// which the capture began. No offset reached on the way may exceed what
    /// the machine can count. Where the capture began at offset 0, the tree
    /// holds no seek and reads as many bytes as the data holds, the ranges
    /// of the reads hold, put together in order, exactly the data.
    pub fn new(trace: &'trace Trace) -> (tree: Self)
        requires
            within(trace.root@, trace.start_index as int, usize::MAX as int),
        ensures
            tree.trace == trace,
            tree.root@ == layout(trace.root@, trace.start_index as int, Seq::empty()),
            nested(tree.root@),
            reads_tile_data(*trace) ==> {
                &&& tiles(read_ranges(tree.root@), 0, trace.data@.len() as int)
                &&& slices(trace.data@, read_ranges(tree.root@)) == trace.data@
            },
    {
        let mut cur = trace.start_index;
        let mut path = Path::new();
        let root = convert(&mut cur, &trace.root, &mut path);
        proof {
            lemma_layout_nested(trace.root@, trace.start_index as int, Seq::empty());
            if reads_tile_data(*trace) {
                lemma_laid_out_reads_are_data(trace.root@, trace.data@, Seq::empty());
            }
        }
        TraceTree { trace, root }
    }

    /// Lays out the tree of `trace` if every offset reached on the way can
    /// be counted, and returns `None` if one cannot.
    pub fn build(trace: &'trace Trace) -> (tree: Option<Self>)
        ensures
            tree is Some <==> within(trace.root@, trace.start_index as int, usize::MAX as int),
            tree is Some ==> {
                &&& tree->0.trace == trace
                &&& tree->0.root@ == layout(
                    trace.root@,
                    trace.start_index as int,
                    Seq::empty(),
                )
                &&& nested(tree->0.root@)
                &&& reads_tile_data(*trace) ==> {
                    &&& tiles(read_ranges(tree->0.root@), 0, trace.data@.len() as int)
                    &&& slices(trace.data@, read_ranges(tree->0.root@)) == trace.data@
                }
            },
    {
        match trace.root.walk(trace.start_index, usize::MAX) {
            Some(_) => Some(TraceTree::new(trace)),
            None => None,
        }
    }
}

/// The capture of `trace` began at offset 0, its tree holds no seek, and
/// the tree reads as many bytes as the data holds.
pub open spec fn reads_tile_data(trace: Trace) -> bool {
    &&& trace.start_index == 0
    &&& seek_free(trace.root@)
    &&& total_read(trace.root@) == trace.data@.len()
}

/// The ranges of the reads of a laid-out tree, in the order in which a
/// depth-first walk meets them.
pub open spec fn read_ranges(node: NodeView) -> Seq<(int, int)>
    decreases node,
{
    match node.action {
        ActionView::Read(_) => seq![(node.start, node.end)],
        ActionView::Seek(_) => Seq::empty(),
        ActionView::Span(_) => read_ranges_upto(node.children, node.children.len()),
    }
}

/// The ranges of the reads of the first `count` of `children`, in order.
pub open spec fn read_ranges_upto(children: Seq<NodeView>, count: nat) -> Seq<(int, int)>
    decreases children, count,
{
    if count == 0 || count > children.len() {
        Seq::empty()
    } else {
        read_ranges_upto(children, (count - 1) as nat) + read_ranges(children[count - 1])
    }
}

/// `ranges` lead from `from` to `to` without gap or overlap: the first
/// begins at `from`, each begins where the one before it ends, and the
/// last ends at `to`.
pub open spec fn tiles(ranges: Seq<(int, int)>, from: int, to: int) -> bool
    decreases ranges.len(),
{
    if ranges.len() == 0 {
        from == to
    } else {
        &&& tiles(ranges.drop_last(), from, ranges.last().0)
        &&& ranges.last().0 <= ranges.last().1
        &&& ranges.last().1 == to
    }
}

/// The bytes of `data` in `ranges`, put together in order.
pub open spec fn slices(data: Seq<u8>, ranges: Seq<(int, int)>) -> Seq<u8>
    decreases ranges.len(),
{
    if ranges.len() == 0 {
        Seq::empty()
    } else {
        slices(data, ranges.drop_last()) + data.subrange(ranges.last().0, ranges.last().1)
    }
}

/// Ranges that lead from `from` to `via`, followed by ranges that lead
/// from `via` to `to`, lead from `from` to `to`.
pub proof fn lemma_tiles_both(
    first: Seq<(int, int)>,
    second: Seq<(int, int)>,
    from: int,
    via: int,
    to: int,
)
    requires
        tiles(first, from, via),
        tiles(second, via, to),
    ensures
        tiles(first + second, from, to),
    decreases second.len(),
{
    if second.len() == 0 {
        assert(first + second =~= first);
    } else {
        lemma_tiles_both(first, second.drop_last(), from, via, second.last().0);
        assert((first + second).drop_last() =~= first + second.drop_last());
    }
}

/// The bytes in ranges that lead from `from` to `to` are the bytes from
/// `from` to `to`.
pub proof fn lemma_slices_of_tiles(data: Seq<u8>, ranges: Seq<(int, int)>, from: int, to: int)
    requires
        tiles(ranges, from, to),
        0 <= from,
        to <= data.len(),
    ensures
        from <= to,
        slices(data, ranges) == data.subrange(from, to),
    decreases ranges.len(),
{
    if ranges.len() == 0 {
        assert(data.subrange(from, to) =~= Seq::<u8>::empty());
    } else {
        let last = ranges.last();
        lemma_slices_of_tiles(data, ranges.drop_last(), from, last.0);
        assert(data.subrange(from, last.0) + data.subrange(last.0, last.1) =~= data.subrange(
            from,
            to,
        ));
    }
}

/// In the layout of a tree without a seek, the ranges of the reads lead
/// from the offset at which the tree is entered to the offset as many
/// bytes later as the tree reads: the first read begins at the start, and
/// every read begins where the read before it ends.
pub proof fn lemma_read_ranges_tile(action: ActionView, offset: int, path: Seq<u8>)
    requires
        seek_free(action),
    ensures
        tiles(read_ranges(layout(action, offset, path)), offset, offset + total_read(action)),
    decreases action, layout(action, offset, path).children.len() + 1,
{
    match action {
        ActionView::Read(n) => {
            let ranges = read_ranges(layout(action, offset, path));
            assert(ranges.drop_last() =~= Seq::<(int, int)>::empty());
            reveal_with_fuel(tiles, 2);
        },
        ActionView::Seek(_) => {},
        ActionView::Span(span) => {
            lemma_read_ranges_tile_upto(action, offset, path, span.actions.len());
            assert(span.actions.take(span.actions.len() as int) =~= span.actions);
        },
    }
}

/// In the layout of a span without a seek, the ranges of the reads of its
/// first `count` actions lead from the offset at which the span is entered
/// to the offset as many bytes later as these actions read.
pub proof fn lemma_read_ranges_tile_upto(
    action: ActionView,
    offset: int,
    path: Seq<u8>,
    count: nat,
)
    requires
        action is Span,
        seek_free(action),
        count <= action->Span_0.actions.len(),
    ensures
        tiles(
            read_ranges_upto(layout(action, offset, path).children, count),
            offset,
            offset + total_read_all(action->Span_0.actions.take(count as int)),
        ),
    decreases action, count,
{
    let actions = action->Span_0.actions;
    let children = layout(action, offset, path).children;
    if count == 0 {
        assert(actions.take(0) =~= Seq::<ActionView>::empty());
    } else {
        let last = count - 1;
        lemma_read_ranges_tile_upto(action, offset, path, last as nat);
        lemma_seek_free_prefix(actions, last);
        lemma_seek_free_end_all(actions.take(last), offset);
        let start = child_start(actions, last, offset);
        lemma_read_ranges_tile(actions[last], start, child_path(path, actions.len(), last));
        assert(actions.take(count as int).drop_last() =~= actions.take(last));
        assert(actions.take(count as int).last() == actions[last]);
        lemma_tiles_both(
            read_ranges_upto(children, last as nat),
            read_ranges(children[last]),
            offset,
            start,
            start + total_read(actions[last]),
        );
    }
}

/// Where a tree holds no seek and reads as many bytes as the data holds,
/// the ranges of the reads in its layout from offset 0 lead from 0 to the
/// end of the data, and the bytes in them, put together in order, are
/// exactly the data.
pub proof fn lemma_laid_out_reads_are_data(root: ActionView, data: Seq<u8>, path: Seq<u8>)
    requires
        seek_free(root),
        total_read(root) == data.len(),
    ensures
        tiles(read_ranges(layout(root, 0, path)), 0, data.len() as int),
        slices(data, read_ranges(layout(root, 0, path))) == data,
{
    lemma_read_ranges_tile(root, 0, path);
    lemma_slices_of_tiles(data, read_ranges(layout(root, 0, path)), 0, data.len() as int);
    assert(data.subrange(0, data.len() as int) =~= data);
}

/// The node reached from `node` by the path `rest`: `node` itself by the
/// empty path, else the node reached from the child whose index the path
/// begins with, by what follows. There is none where the path ends inside
/// an index or names a child that is not there.
pub open spec fn node_at(node: NodeView, rest: Seq<u8>) -> Option<NodeView>
    decreases node,
{
    let width = index_width(node.children.len()) as int;
    if rest.len() == 0 {
        Some(node)
    } else if rest.len() < width {
        None
    } else {
        let index = be_value(rest.subrange(0, width)) as int;
        if index < node.children.len() {
            node_at(node.children[index], rest.subrange(width, rest.len() as int))
        } else {
            None
        }
    }
}

/// A node of a layout is reached from the root of the layout by what its
/// identifier holds beyond the identifier of the root, and what is reached
/// by a path is the node whose identifier ends with that path.
pub proof fn lemma_found_by_identifier(
    action: ActionView,
    offset: int,
    path: Seq<u8>,
    rest: Seq<u8>,
)
    ensures
        node_at(layout(action, offset, path), rest) matches Some(found) ==> found.identifier
            == path + rest,
    decreases action,
{
    let node = layout(action, offset, path);
    let count = node.children.len();
    let width = index_width(count) as int;
    if rest.len() == 0 {
        assert(path + rest =~= path);
    } else if rest.len() >= width {
        let head = rest.subrange(0, width);
        let index = be_value(head) as int;
        if index < count {
            let span = action->Span_0;
            let tail = rest.subrange(width, rest.len() as int);
            lemma_found_by_identifier(
                span.actions[index],
                child_start(span.actions, index, offset),
                child_path(path, count, index),
                tail,
            );
            lemma_be_bytes_of_value(head);
            assert(child_path(path, count, index) + tail =~= path + rest) by {
                assert(head + tail =~= rest);
            }
        }
    }
}

/// Child `k` of a node of a layout is reached from the node by the bytes
/// that its identifier adds to the identifier of the node.
pub proof fn lemma_child_found(action: ActionView, offset: int, path: Seq<u8>, k: int)
    requires
        0 <= k < layout(action, offset, path).children.len(),
    ensures
        node_at(
            layout(action, offset, path),
            be_bytes(k as nat, index_width(layout(action, offset, path).children.len())),
        ) == Some(layout(action, offset, path).children[k]),
        layout(action, offset, path).children[k].identifier == child_path(
            path,
            layout(action, offset, path).children.len(),
            k,
        ),
{
    let node = layout(action, offset, path);
    let count = node.children.len();
    let width = index_width(count);
    let bytes = be_bytes(k as nat, width);
    lemma_be_bytes_len(k as nat, width);
    lemma_index_fits(count, k as nat);
    lemma_index_width_positive(count);
    lemma_be_round_trip(k as nat, width);
    assert(bytes.subrange(0, width as int) =~= bytes);
    assert(bytes.subrange(width as int, bytes.len() as int) =~= Seq::<u8>::empty());
    reveal_with_fuel(node_at, 2);
    reveal_with_fuel(layout, 2);
}

impl<'trace> TraceNode<'trace> {
    /// The node reached from this node by `path`, if there is one.
    pub fn find<'a>(&'a self, path: Path<&[u8]>) -> (found: Option<&'a TraceNode<'trace>>)
        ensures
            found is Some <==> node_at(self@, path@) is Some,
            found is Some ==> found->0@ == node_at(self@, path@)->0,
        decreases self@,
    {
        if path.len() == 0 {
            return Some(self);
        }
        let count = self.children.len();
        let width = crate::path::width_of(count);
        if path.len() < width {
            return None;
        }
        let (index, rest) = path.split_next(count);
        if index < count {
            proof {
                assert(decreases_to!(self@ => self@.children[index as int]));
            }
            self.children[index].find(rest)
        } else {
            None
        }
    }
}

impl<'trace> TraceTree<'trace> {
    /// The bytes of the data that the range of `node` covers, or `None`
    /// where the range ends before it begins or beyond the data.
    pub fn bytes_of(&self, node: &TraceNode<'trace>) -> (bytes: Option<&'trace [u8]>)
        ensures
            bytes is Some <==> node.start <= node.end <= self.trace.data@.len(),
            bytes is Some ==> bytes->0@ == self.trace.data@.subrange(
                node.start as int,
                node.end as int,
            ),
    {
        if node.start <= node.end && node.end <= self.trace.data.len() {
            Some(vstd::slice::slice_subrange(self.trace.data.as_slice(), node.start, node.end))
        } else {
            None
        }
    }

    /// The node whose identifier is `path`, if there is one.
    pub fn get<'a>(&'a self, path: &Path) -> (found: Option<&'a TraceNode<'trace>>)
        ensures
            found is Some <==> node_at(self.root@, path@) is Some,
            found is Some ==> found->0@ == node_at(self.root@, path@)->0,
    {
        self.root.find(path.as_slice())
    }
}

/// A line of the tree as it is shown: how deep the node is, whether it
/// has children, how many rows it takes, and its identifier.
#[derive(Debug)]
pub struct VisibleNode {
    pub depth: usize,
    pub has_children: bool,
    pub height: usize,
    pub identifier: Path,
}

/// Mathematical model of a shown line.
pub struct VisibleView {
    pub depth: nat,
    pub has_children: bool,
    pub height: nat,
    pub identifier: Seq<u8>,
}

impl View for VisibleNode {
    type V = VisibleView;

    open spec fn view(&self) -> VisibleView {
        VisibleView {
            depth: self.depth as nat,
            has_children: self.has_children,
            height: self.height as nat,
            identifier: self.identifier@,
        }
    }
}

/// The models of a list of shown lines, in order.
pub open spec fn visible_views(lines: Seq<VisibleNode>) -> Seq<VisibleView> {
    lines.map_values(|line: VisibleNode| line@)
}

/// The identifiers that `open` lists.
pub open spec fn open_set(open: Seq<Path>) -> Set<Seq<u8>> {
    Set::new(|id: Seq<u8>| exists|i: int| 0 <= i < open.len() && (#[trigger] open[i])@ == id)
}

/// The lines shown for `node` at depth `depth` where the nodes in `open`
/// are open: one for the node, one row high, and, if the node is open,
/// those of its children in order, one level deeper. (No level is deeper
/// than the machine can count.)
pub open spec fn visible(node: NodeView, open: Set<Seq<u8>>, depth: nat) -> Seq<VisibleView>
    decreases node,
{
    let own = VisibleView {
        depth,
        has_children: node.children.len() > 0,
        height: 1,
        identifier: node.identifier,
    };
    if open.contains(node.identifier) && depth < usize::MAX {
        seq![own] + visible_upto(node.children, node.children.len(), open, depth + 1)
    } else {
        seq![own]
    }
}

/// The lines shown for the first `count` of `children`, each at depth
/// `depth`.
pub open spec fn visible_upto(
    children: Seq<NodeView>,
    count: nat,
    open: Set<Seq<u8>>,
    depth: nat,
) -> Seq<VisibleView>
    decreases children, count,
{
    if count == 0 || count > children.len() {
        Seq::empty()
    } else {
        visible_upto(children, (count - 1) as nat, open, depth) + visible(
            children[count - 1],
            open,
            depth,
        )
    }
}

/// `id` is the identifier of a node at or below the node at `path`.
pub open spec fn at_or_below(id: Seq<u8>, path: Seq<u8>) -> bool {
    id.len() >= path.len() && id.subrange(0, path.len() as int) == path
}

/// The first line shown for a layout is that of its root, and every line
/// after it is that of a node below the root.
pub proof fn lemma_shown_below(
    action: ActionView,
    offset: int,
    path: Seq<u8>,
    open: Set<Seq<u8>>,
    depth: nat,
    i: int,
)
    requires
        0 <= i < visible(layout(action, offset, path), open, depth).len(),
    ensures
        ({
            let id = visible(layout(action, offset, path), open, depth)[i].identifier;
            &&& at_or_below(id, path)
            &&& i == 0 ==> id == path
            &&& i > 0 ==> id.len() > path.len()
        }),
    decreases action, layout(action, offset, path).children.len() + 1,
{
    let node = layout(action, offset, path);
    let count = node.children.len();
    assert(path.subrange(0, path.len() as int) =~= path);
    if i > 0 {
        let k = lemma_shown_upto_below(action, offset, path, count, open, depth + 1, i - 1);
        let id = visible(node, open, depth)[i].identifier;
        let child = child_path(path, count, k);
        lemma_be_bytes_len(k as nat, index_width(count));
        lemma_index_width_positive(count);
        assert(id.subrange(0, path.len() as int) =~= id.subrange(0, child.len() as int).subrange(
            0,
            path.len() as int,
        ));
        assert(child.subrange(0, path.len() as int) =~= path);
    }
}

/// Every line shown for the first `count` children of the root of a
/// layout is that of a node at or below one of these children.
pub proof fn lemma_shown_upto_below(
    action: ActionView,
    offset: int,
    path: Seq<u8>,
    count: nat,
    open: Set<Seq<u8>>,
    depth: nat,
    i: int,
) -> (k: int)
    requires
        count <= layout(action, offset, path).children.len(),
        0 <= i < visible_upto(layout(action, offset, path).children, count, open, depth).len(),
    ensures
        0 <= k < count,
        at_or_below(
            visible_upto(layout(action, offset, path).children, count, open, depth)[i].identifier,
            child_path(path, layout(action, offset, path).children.len(), k),
        ),
    decreases action, count,
{
    let children = layout(action, offset, path).children;
    let before = visible_upto(children, (count - 1) as nat, open, depth);
    if i < before.len() {
        lemma_shown_upto_below(action, offset, path, (count - 1) as nat, open, depth, i)
    } else {
        let span = action->Span_0;
        let last = count - 1;
        lemma_shown_below(
            span.actions[last],
            child_start(span.actions, last, offset),
            child_path(path, children.len(), last),
            open,
            depth,
            i - before.len(),
        );
        last
    }
}

/// Every line shown for a layout is that of a node of the layout, which its
/// identifier finds: what the identifier holds beyond the path of the root
/// leads from the root to the node with that identifier.
pub proof fn lemma_shown_is_found(
    action: ActionView,
    offset: int,
    path: Seq<u8>,
    open: Set<Seq<u8>>,
    depth: nat,
    i: int,
)
    requires
        0 <= i < visible(layout(action, offset, path), open, depth).len(),
    ensures
        ({
            let id = visible(layout(action, offset, path), open, depth)[i].identifier;
            &&& at_or_below(id, path)
            &&& node_at(
                layout(action, offset, path),
                id.subrange(path.len() as int, id.len() as int),
            ) matches Some(found) && found.identifier == id
        }),
    decreases action, layout(action, offset, path).children.len() + 1,
{
    let node = layout(action, offset, path);
    let count = node.children.len();
    let id = visible(node, open, depth)[i].identifier;
    assert(path.subrange(0, path.len() as int) =~= path);
    if i == 0 {
        assert(id.subrange(path.len() as int, id.len() as int) =~= Seq::<u8>::empty());
    } else {
        let k = lemma_shown_upto_is_found(action, offset, path, count, open, depth + 1, i - 1);
        let span = action->Span_0;
        let step = be_bytes(k as nat, index_width(count));
        let child = child_path(path, count, k);
        let rest = id.subrange(child.len() as int, id.len() as int);
        let whole = id.subrange(path.len() as int, id.len() as int);
        lemma_be_bytes_len(k as nat, index_width(count));
        lemma_index_fits(count, k as nat);
        lemma_index_width_positive(count);
        lemma_be_round_trip(k as nat, index_width(count));
        assert(id =~= child + rest) by {
            assert(id =~= id.subrange(0, child.len() as int) + rest);
        }
        assert(whole =~= step + rest);
        assert(whole.subrange(0, step.len() as int) =~= step);
        assert(whole.subrange(step.len() as int, whole.len() as int) =~= rest);
        assert(id.subrange(0, path.len() as int) =~= path);
        assert(node.children[k] == layout(
            span.actions[k],
            child_start(span.actions, k, offset),
            child,
        ));
    }
}

/// Every line shown for the first `count` children of the root of a
/// layout is that of a node in or below one of these children, which its
/// identifier finds from that child.
pub proof fn lemma_shown_upto_is_found(
    action: ActionView,
    offset: int,
    path: Seq<u8>,
    count: nat,
    open: Set<Seq<u8>>,
    depth: nat,
    i: int,
) -> (k: int)
    requires
        count <= layout(action, offset, path).children.len(),
        0 <= i < visible_upto(layout(action, offset, path).children, count, open, depth).len(),
    ensures
        0 <= k < count,
        ({
            let id = visible_upto(
                layout(action, offset, path).children,
                count,
                open,
                depth,
            )[i].identifier;
            let child = child_path(path, layout(action, offset, path).children.len(), k);
            &&& at_or_below(id, child)
            &&& node_at(
                layout(action, offset, path).children[k],
                id.subrange(child.len() as int, id.len() as int),
            ) matches Some(found) && found.identifier == id
        }),
    decreases action, count,
{
    let children = layout(action, offset, path).children;
    let before = visible_upto(children, (count - 1) as nat, open, depth);
    if i < before.len() {
        lemma_shown_upto_is_found(action, offset, path, (count - 1) as nat, open, depth, i)
    } else {
        let span = action->Span_0;
        let last = count - 1;
        lemma_shown_is_found(
            span.actions[last],
            child_start(span.actions, last, offset),
            child_path(path, children.len(), last),
            open,
            depth,
            i - before.len(),
        );
        last
    }
}

/// The lines shown for a layout come in the order of their identifiers:
/// paths sort as the depth-first walk through the tree visits.
pub proof fn lemma_shown_sorted(
    action: ActionView,
    offset: int,
    path: Seq<u8>,
    open: Set<Seq<u8>>,
    depth: nat,
    i: int,
    j: int,
)
    requires
        0 <= i < j < visible(layout(action, offset, path), open, depth).len(),
    ensures
        lex_less(
            visible(layout(action, offset, path), open, depth)[i].identifier,
            visible(layout(action, offset, path), open, depth)[j].identifier,
        ),
    decreases action, layout(action, offset, path).children.len() + 1,
{
    let node = layout(action, offset, path);
    let count = node.children.len();
    let shown = visible(node, open, depth);
    if i == 0 {
        lemma_shown_below(action, offset, path, open, depth, j);
        let id = shown[j].identifier;
        let below = id.subrange(path.len() as int, id.len() as int);
        assert(id =~= path + below);
        lemma_ancestor_order(path, below);
    } else {
        lemma_shown_upto_sorted(action, offset, path, count, open, depth + 1, i - 1, j - 1);
    }
}

/// The lines shown for the first `count` children of the root of a
/// layout come in the order of their identifiers.
pub proof fn lemma_shown_upto_sorted(
    action: ActionView,
    offset: int,
    path: Seq<u8>,
    count: nat,
    open: Set<Seq<u8>>,
    depth: nat,
    i: int,
    j: int,
)
    requires
        count <= layout(action, offset, path).children.len(),
        0 <= i < j < visible_upto(layout(action, offset, path).children, count, open, depth).len(),
    ensures
        lex_less(
            visible_upto(layout(action, offset, path).children, count, open, depth)[i].identifier,
            visible_upto(layout(action, offset, path).children, count, open, depth)[j].identifier,
        ),
    decreases action, count,
{
    let children = layout(action, offset, path).children;
    let total = children.len();
    let before = visible_upto(children, (count - 1) as nat, open, depth);
    let shown = visible_upto(children, count, open, depth);
    let span = action->Span_0;
    let last = count - 1;
    if j < before.len() {
        lemma_shown_upto_sorted(action, offset, path, (count - 1) as nat, open, depth, i, j);
    } else if i >= before.len() {
        lemma_shown_sorted(
            span.actions[last],
            child_start(span.actions, last, offset),
            child_path(path, total, last),
            open,
            depth,
            i - before.len(),
            j - before.len(),
        );
    } else {
        let k = lemma_shown_upto_below(action, offset, path, (count - 1) as nat, open, depth, i);
        lemma_shown_below(
            span.actions[last],
            child_start(span.actions, last, offset),
            child_path(path, total, last),
            open,
            depth,
            j - before.len(),
        );
        let width = index_width(total);
        let first = shown[i].identifier;
        let second = shown[j].identifier;
        let lower = child_path(path, total, k);
        let upper = child_path(path, total, last);
        lemma_be_bytes_len(k as nat, width);
        lemma_be_bytes_len(last as nat, width);
        let below_first = first.subrange(lower.len() as int, first.len() as int);
        let below_second = second.subrange(upper.len() as int, second.len() as int);
        assert(first =~= path + be_bytes(k as nat, width) + below_first) by {
            assert(first =~= first.subrange(0, lower.len() as int) + below_first);
        }
        assert(second =~= path + be_bytes(last as nat, width) + below_second) by {
            assert(second =~= second.subrange(0, upper.len() as int) + below_second);
        }
        lemma_sibling_order(path, total, k as nat, last as nat, below_first, below_second);
    }
}

/// Whether `open` lists `identifier`.
fn is_open(open: &Vec<Path>, identifier: &Path) -> (listed: bool)
    ensures
        listed == open_set(open@).contains(identifier@),
{
    let mut i: usize = 0;
    while i < open.len()
        invariant
            i <= open.len(),
            forall|k: int| 0 <= k < i ==> (#[trigger] open[k])@ != identifier@,
        decreases open.len() - i,
    {
        if open[i].same(identifier) {
            return true;
        }
        i = i + 1;
    }
    false
}

impl<'trace> TraceNode<'trace> {
    /// Appends to `nodes` the lines shown for this node at depth `depth`,
    /// where the nodes whose identifiers `open` lists are open.
    pub fn collect_visible(&self, open: &Vec<Path>, nodes: &mut Vec<VisibleNode>, depth: usize)
        ensures
            visible_views(final(nodes)@) == visible_views(old(nodes)@) + visible(
                self@,
                open_set(open@),
                depth as nat,
            ),
        decreases self@,
    {
        nodes.push(
            VisibleNode {
                depth,
                has_children: self.children.len() > 0,
                height: 1,
                identifier: self.identifier.copy(),
            },
        );
        proof {
            assert(visible_views(nodes@) =~= visible_views(old(nodes)@).push(nodes@.last()@));
        }
        if is_open(open, &self.identifier) && depth < usize::MAX {
            let ghost own = visible_views(nodes@);
            let count = self.children.len();
            let mut i: usize = 0;
            while i < count
                invariant
                    i <= count == self.children.len(),
                    depth < usize::MAX,
                    visible_views(nodes@) == own + visible_upto(
                        self@.children,
                        i as nat,
                        open_set(open@),
                        (depth + 1) as nat,
                    ),
                decreases count - i,
            {
                proof {
                    assert(decreases_to!(self@ => self@.children[i as int]));
                }
                self.children[i].collect_visible(open, nodes, depth + 1);
                proof {
                    assert(visible_views(nodes@) =~= own + visible_upto(
                        self@.children,
                        (i + 1) as nat,
                        open_set(open@),
                        (depth + 1) as nat,
                    ));
                }
                i = i + 1;
            }
            proof {
                assert(visible_views(nodes@) =~= visible_views(old(nodes)@) + visible(
                    self@,
                    open_set(open@),
                    depth as nat,
                ));
            }
        } else {
            proof {
                assert(visible_views(nodes@) =~= visible_views(old(nodes)@) + visible(
                    self@,
                    open_set(open@),
                    depth as nat,
                ));
            }
        }
    }
}

impl<'trace> TraceTree<'trace> {
    /// The lines shown for the tree where the nodes whose identifiers
    /// `open_identifiers` lists are open: the root, and below every open
    /// node its children in order.
    pub fn get_nodes(&self, open_identifiers: &Vec<Path>) -> (nodes: Vec<VisibleNode>)
        ensures
            visible_views(nodes@) == visible(self.root@, open_set(open_identifiers@), 0),
    {
        let mut nodes: Vec<VisibleNode> = Vec::new();
        self.root.collect_visible(open_identifiers, &mut nodes, 0);
        proof {
            assert(visible_views(nodes@) =~= visible(self.root@, open_set(open_identifiers@), 0));
        }
        nodes
    }
}

} // verus!
