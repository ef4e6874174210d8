//! Capture by call-stack sampling: every read comes with the call stack it
//! was made from, and the span tree is derived from the stacks.

use vstd::prelude::*;
use vstd::string::StringExecFns;
use std::collections::BTreeMap;
use crate::hex::{hex_upper, push_hex};
use crate::trace::{
    lemma_replay_is_data, reads_of, reads_of_all, replay, seek_free, seek_free_all, total_read,
    total_read_all, Action, ActionView, SpanView, Trace, TreeSpan,
};

verus! {

/// How a tracer captures.
#[derive(Default, Debug)]
pub struct TracerOptions {
    /// Number of frames nearest the capture point to leave out of every
    /// stack: the frames of the tracer and of other instrumentation.
    pub skip_frames: usize,
}

/// One frame of a call stack: the address at which its function starts,
/// by which frames are told apart, and its instruction pointer, by which
/// its name is looked up.
#[derive(Debug, Clone, Copy, PartialEq, Eq, Structural)]
pub struct StackFrame {
    pub id: u64,
    pub ip: u64,
}

/// One sampled read: how many bytes, and the call stack from the outermost
/// frame inwards.
#[derive(Debug)]
pub struct Op {
    pub count: usize,
    pub stack: Vec<StackFrame>,
}

/// The bytes read so far and the samples taken with them.
#[derive(Debug)]
pub struct Tracer {
    data: Vec<u8>,
    ops: Vec<Op>,
    options: TracerOptions,
}

/// Frame `j` of `stack`, counted from its innermost end.
pub open spec fn from_end(stack: Seq<StackFrame>, j: int) -> StackFrame {
    stack[stack.len() - 1 - j]
}

/// Stack `s` has a frame at position `j`, and it is the frame that the
/// first stack has there.
pub open spec fn agrees_at(stacks: Seq<Seq<StackFrame>>, s: int, j: int) -> bool {
    j < stacks[s].len() && stacks[s][j].id == stacks[0][j].id
}

/// Stack `s` has a frame at position `j` from its end, beyond its first
/// `skip` frames, and it is the frame that the first stack has there.
pub open spec fn agrees_at_end(stacks: Seq<Seq<StackFrame>>, skip: int, s: int, j: int) -> bool {
    skip + j < stacks[s].len() && from_end(stacks[s], j).id == from_end(stacks[0], j).id
}

/// Every stack has at least `k` frames, and its first `k` frames are those
/// of the first stack.
pub open spec fn shares_prefix(stacks: Seq<Seq<StackFrame>>, k: int) -> bool {
    forall|s: int, j: int|
        0 <= s < stacks.len() && 0 <= j < k ==> #[trigger] agrees_at(stacks, s, j)
}

/// Every stack has at least `k` frames after its first `skip`, and its last
/// `k` frames are those of the first stack.
pub open spec fn shares_suffix(stacks: Seq<Seq<StackFrame>>, skip: int, k: int) -> bool {
    forall|s: int, j: int|
        0 <= s < stacks.len() && 0 <= j < k ==> #[trigger] agrees_at_end(stacks, skip, s, j)
}

/// `k` is the number of leading frames that all stacks share: the frames
/// are shared, and one more frame is not. No stacks share no frames.
pub open spec fn is_common_start(stacks: Seq<Seq<StackFrame>>, k: int) -> bool {
    if stacks.len() == 0 {
        k == 0
    } else {
        0 <= k && shares_prefix(stacks, k) && !shares_prefix(stacks, k + 1)
    }
}

/// `k` is the number of trailing frames that all stacks share once their
/// first `skip` frames are set aside.
pub open spec fn is_common_end(stacks: Seq<Seq<StackFrame>>, skip: int, k: int) -> bool {
    if stacks.len() == 0 {
        k == 0
    } else {
        0 <= k && shares_suffix(stacks, skip, k) && !shares_suffix(stacks, skip, k + 1)
    }
}

/// The stacks of a list of samples, in order.
pub open spec fn stacks_of(ops: Seq<Op>) -> Seq<Seq<StackFrame>> {
    Seq::new(ops.len(), |i: int| ops[i].stack@)
}

/// What is left of `stack` without its first `skip_start` and its last
/// `skip_end` frames.
pub open spec fn retained(stack: Seq<StackFrame>, skip_start: int, skip_end: int) -> Seq<
    StackFrame,
> {
    stack.subrange(skip_start, stack.len() - skip_end)
}

/// Whether every stack has, at position `depth`, the frame that the first
/// stack has there.
fn shared_at(ops: &Vec<Op>, depth: usize) -> (shared: bool)
    requires
        ops.len() > 0,
    ensures
        shared == (forall|s: int|
            0 <= s < ops.len() ==> #[trigger] agrees_at(stacks_of(ops@), s, depth as int)),
{
    let ghost stacks = stacks_of(ops@);
    if depth >= ops[0].stack.len() {
        proof {
            assert(!agrees_at(stacks, 0, depth as int));
        }
        return false;
    }
    let address = ops[0].stack[depth].id;
    let mut i: usize = 0;
    while i < ops.len()
        invariant
            i <= ops.len(),
            stacks == stacks_of(ops@),
            depth < stacks[0].len(),
            address == stacks[0][depth as int].id,
            forall|s: int| 0 <= s < i ==> #[trigger] agrees_at(stacks, s, depth as int),
        decreases ops.len() - i,
    {
        if depth >= ops[i].stack.len() || ops[i].stack[depth].id != address {
            proof {
                assert(stacks[i as int] == ops[i as int].stack@);
                assert(!agrees_at(stacks, i as int, depth as int));
            }
            return false;
        }
        proof {
            assert(stacks[i as int] == ops[i as int].stack@);
            assert(agrees_at(stacks, i as int, depth as int));
        }
        i = i + 1;
    }
    true
}

/// Whether every stack has, at position `depth` from its end and beyond
/// its first `skip` frames, the frame that the first stack has there.
fn shared_at_end(ops: &Vec<Op>, skip: usize, depth: usize) -> (shared: bool)
    requires
        ops.len() > 0,
    ensures
        shared == (forall|s: int|
            0 <= s < ops.len() ==> #[trigger] agrees_at_end(
                stacks_of(ops@),
                skip as int,
                s,
                depth as int,
            )),
{
    let ghost stacks = stacks_of(ops@);
    let first = &ops[0].stack;
    if depth >= first.len() || skip >= first.len() - depth {
        proof {
            assert(!agrees_at_end(stacks, skip as int, 0, depth as int));
        }
        return false;
    }
    let address = first[first.len() - 1 - depth].id;
    let mut i: usize = 0;
    while i < ops.len()
        invariant
            i <= ops.len(),
            stacks == stacks_of(ops@),
            skip + depth < stacks[0].len(),
            address == from_end(stacks[0], depth as int).id,
            forall|s: int|
                0 <= s < i ==> #[trigger] agrees_at_end(stacks, skip as int, s, depth as int),
        decreases ops.len() - i,
    {
        let stack = &ops[i].stack;
        if depth >= stack.len() || skip >= stack.len() - depth || stack[stack.len() - 1
            - depth].id != address {
            proof {
                assert(stacks[i as int] == ops[i as int].stack@);
                assert(!agrees_at_end(stacks, skip as int, i as int, depth as int));
            }
            return false;
        }
        proof {
            assert(stacks[i as int] == ops[i as int].stack@);
            assert(agrees_at_end(stacks, skip as int, i as int, depth as int));
        }
        i = i + 1;
    }
    true
}

/// Number of leading frames that the stacks of all samples share.
pub fn common_start(ops: &Vec<Op>) -> (skip_start: usize)
    ensures
        is_common_start(stacks_of(ops@), skip_start as int),
        forall|s: int| 0 <= s < ops.len() ==> skip_start <= (#[trigger] ops[s]).stack.len(),
{
    if ops.len() == 0 {
        return 0;
    }
    let ghost stacks = stacks_of(ops@);
    let first_len = ops[0].stack.len();
    let mut skip_start: usize = 0;
    while shared_at(ops, skip_start)
        invariant
            ops.len() > 0,
            stacks == stacks_of(ops@),
            stacks[0].len() == first_len,
            skip_start <= stacks[0].len(),
            shares_prefix(stacks, skip_start as int),
        decreases stacks[0].len() - skip_start,
    {
        proof {
            assert(agrees_at(stacks, 0, skip_start as int));
            assert(stacks[0] == ops[0].stack@);
        }
        skip_start = skip_start + 1;
    }
    proof {
        let s = choose|s: int| 0 <= s < ops.len() && !agrees_at(stacks, s, skip_start as int);
        assert(!agrees_at(stacks, s, skip_start as int));
        assert forall|s: int| 0 <= s < ops.len() implies skip_start <= (
        #[trigger] ops[s]).stack.len() by {
            assert(stacks[s] == ops[s].stack@);
            if skip_start > 0 {
                assert(agrees_at(stacks, s, skip_start - 1));
            }
        }
    }
    skip_start
}

/// Number of trailing frames that the stacks of all samples share, once
/// the `skip_start` leading frames that they share are set aside.
pub fn common_end(ops: &Vec<Op>, skip_start: usize) -> (skip_end: usize)
    ensures
        is_common_end(stacks_of(ops@), skip_start as int, skip_end as int),
        skip_end > 0 ==> forall|s: int|
            0 <= s < ops.len() ==> skip_start + skip_end <= (#[trigger] ops[s]).stack.len(),
{
    if ops.len() == 0 {
        return 0;
    }
    let ghost stacks = stacks_of(ops@);
    let first_len = ops[0].stack.len();
    let mut skip_end: usize = 0;
    while shared_at_end(ops, skip_start, skip_end)
        invariant
            ops.len() > 0,
            stacks == stacks_of(ops@),
            stacks[0].len() == first_len,
            skip_end <= stacks[0].len(),
            shares_suffix(stacks, skip_start as int, skip_end as int),
        decreases stacks[0].len() - skip_end,
    {
        proof {
            assert(agrees_at_end(stacks, skip_start as int, 0, skip_end as int));
            assert(stacks[0] == ops[0].stack@);
        }
        skip_end = skip_end + 1;
    }
    proof {
        let s = choose|s: int|
            0 <= s < ops.len() && !agrees_at_end(stacks, skip_start as int, s, skip_end as int);
        assert(!agrees_at_end(stacks, skip_start as int, s, skip_end as int));
        if skip_end > 0 {
            assert forall|s: int| 0 <= s < ops.len() implies skip_start + skip_end <= (
            #[trigger] ops[s]).stack.len() by {
                assert(stacks[s] == ops[s].stack@);
                assert(agrees_at_end(stacks, skip_start as int, s, skip_end - 1));
            }
        }
    }
    skip_end
}

/// A node of the tree grown from samples: a call frame with what happened
/// inside it, or a read.
#[derive(Debug)]
pub enum TreeNode {
    Frame(Frame),
    Read { count: usize },
}

/// A call frame with, in order, the frames called and the reads made from
/// it.
#[derive(Debug)]
pub struct Frame {
    pub id: u64,
    pub ip: u64,
    pub children: Vec<TreeNode>,
}

/// Mathematical model of a node of the sample tree.
pub enum TreeNodeView {
    Frame(FrameView),
    Read(nat),
}

/// Mathematical model of a call frame of the sample tree.
pub struct FrameView {
    pub id: int,
    pub ip: int,
    pub children: Seq<TreeNodeView>,
}

/// The model of a call frame: its addresses and the models of its
/// children.
pub open spec fn frame_model(frame: Frame) -> FrameView
    decreases frame,
{
    FrameView {
        id: frame.id as int,
        ip: frame.ip as int,
        children: Seq::new(
            frame.children.len() as nat,
            |i: int|
                if 0 <= i < frame.children.len() {
                    node_model(frame.children[i])
                } else {
                    TreeNodeView::Read(0)
                },
        ),
    }
}

/// The model of a node of the sample tree.
pub open spec fn node_model(node: TreeNode) -> TreeNodeView
    decreases node,
{
    match node {
        TreeNode::Frame(frame) => TreeNodeView::Frame(frame_model(frame)),
        TreeNode::Read { count } => TreeNodeView::Read(count as nat),
    }
}

impl View for Frame {
    type V = FrameView;

    open spec fn view(&self) -> FrameView {
        frame_model(*self)
    }
}

impl View for TreeNode {
    type V = TreeNodeView;

    open spec fn view(&self) -> TreeNodeView {
        node_model(*self)
    }
}

/// A frame with nothing recorded in it yet.
pub open spec fn empty_frame(head: StackFrame) -> FrameView {
    FrameView { id: head.id as int, ip: head.ip as int, children: Seq::empty() }
}

/// `frame` after a read of `count` bytes made from the call stack `path`,
/// counted from `frame` inwards. The walk descends into the child added
/// last where that child is the frame called next, and adds a new child
/// frame where it is not; at the end of the stack it adds the read.
pub open spec fn inserted(frame: FrameView, path: Seq<StackFrame>, count: nat) -> FrameView
    decreases path.len(),
{
    if path.len() == 0 {
        FrameView {
            id: frame.id,
            ip: frame.ip,
            children: frame.children.push(TreeNodeView::Read(count)),
        }
    } else if frame.children.len() > 0 && frame.children.last() is Frame
        && frame.children.last()->Frame_0.id == path[0].id {
        FrameView {
            id: frame.id,
            ip: frame.ip,
            children: frame.children.drop_last().push(
                TreeNodeView::Frame(
                    inserted(frame.children.last()->Frame_0, path.drop_first(), count),
                ),
            ),
        }
    } else {
        FrameView {
            id: frame.id,
            ip: frame.ip,
            children: frame.children.push(
                TreeNodeView::Frame(inserted(empty_frame(path[0]), path.drop_first(), count)),
            ),
        }
    }
}

impl Frame {
    /// A frame with nothing recorded in it yet.
    pub fn new(id: u64, ip: u64) -> (frame: Self)
        ensures
            frame@ == empty_frame(StackFrame { id, ip }),
    {
        let frame = Frame { id, ip, children: Vec::new() };
        proof {
            assert(frame@.children =~= Seq::empty());
        }
        frame
    }

    /// Records a read of `count` bytes made from the call stack `path`,
    /// counted from this frame inwards.
    pub fn insert(&mut self, path: &[StackFrame], count: usize)
        ensures
            final(self)@ == inserted(old(self)@, path@, count as nat),
        decreases path@.len(),
    {
        let ghost before = (*self)@;
        if path.len() == 0 {
            self.children.push(TreeNode::Read { count });
            proof {
                assert((*self)@.children =~= before.children.push(TreeNodeView::Read(count as nat)));
            }
            return ;
        }
        let head = path[0];
        let rest = vstd::slice::slice_subrange(path, 1, path.len());
        proof {
            assert(rest@ =~= path@.drop_first());
        }
        let last = self.children.pop();
        let ghost popped = (*self)@;
        proof {
            if before.children.len() > 0 {
                assert(popped.children =~= before.children.drop_last());
                assert(last->0@ == before.children.last());
            }
        }
        match last {
            Some(TreeNode::Frame(mut frame)) => {
                if frame.id == head.id {
                    frame.insert(rest, count);
                    let ghost grown = frame@;
                    self.children.push(TreeNode::Frame(frame));
                    proof {
                        assert((*self)@.children =~= popped.children.push(
                            TreeNodeView::Frame(grown),
                        ));
                    }
                    return ;
                }
                let ghost kept = frame@;
                self.children.push(TreeNode::Frame(frame));
                proof {
                    assert((*self)@.children =~= before.children);
                }
            },
            Some(other) => {
                self.children.push(other);
                proof {
                    assert((*self)@.children =~= before.children);
                }
            },
            None => {
                proof {
                    assert((*self)@.children =~= before.children);
                }
            },
        }
        let mut child = Frame::new(head.id, head.ip);
        child.insert(rest, count);
        let ghost grown = child@;
        self.children.push(TreeNode::Frame(child));
        proof {
            assert((*self)@.children =~= before.children.push(TreeNodeView::Frame(grown)));
        }
    }
}

/// The name given to a frame whose symbol is not found: `0x` and the
/// address at which its function starts, in hexadecimal.
pub open spec fn fallback_name(id: u64) -> Seq<char> {
    seq!['0', 'x'] + hex_upper(id as nat)
}

/// The name of a frame.
#[derive(Debug, Clone)]
pub struct Symbol {
    name: String,
}

impl View for Symbol {
    type V = Seq<char>;

    closed spec fn view(&self) -> Seq<char> {
        self.name@
    }
}

impl Symbol {
    /// The symbol of a frame whose function starts at address `id`, given
    /// what looking up its name found: the name found, or else the
    /// fallback name made from `id`.
    pub fn found(found: Option<String>, id: u64) -> (symbol: Self)
        ensures
            symbol@ == match found {
                Some(name) => name@,
                None => fallback_name(id),
            },
    {
        match found {
            Some(name) => Symbol { name },
            None => {
                let mut name = String::new();
                name.append("0x");
                proof {
                    reveal_strlit("0x");
                    assert(name@ =~= seq!['0', 'x']);
                }
                push_hex(&mut name, id);
                Symbol { name }
            },
        }
    }

    /// The name.
    pub fn name(&self) -> (name: &str)
        ensures
            name@ == self@,
    {
        self.name.as_str()
    }

    /// The name, as an owned string.
    pub fn into_name(self) -> (name: String)
        ensures
            name@ == self@,
    {
        self.name
    }

    /// A copy of this symbol.
    pub fn copy(&self) -> (symbol: Self)
        ensures
            symbol@ == self@,
    {
        Symbol { name: self.name.clone() }
    }
}

/// `backtrace::resolve`: looks up the symbol at an instruction address
/// and gives its name, demangled, if it finds one. What it finds depends
/// on the running program and its debug data, so nothing is promised of
/// the result.
#[verifier::external_body]
fn resolve_name(ip: u64) -> (name: Option<String>) {
    let mut name = None;
    backtrace::resolve(
        ip as _,
        |symbol| {
            name = symbol.name().map(|n| n.to_string());
        },
    );
    name
}

/// `backtrace::trace`: walks the call stack of the caller, innermost frame
/// first. Each frame is kept as the address at which its function starts
/// and its instruction pointer. The stack depends on where the call is
/// made from, so nothing is promised of the result.
#[verifier::external_body]
fn capture_stack() -> (stack: Vec<StackFrame>) {
    let mut stack = Vec::new();
    backtrace::trace(
        |frame| {
            stack.push(StackFrame { id: frame.symbol_address() as u64, ip: frame.ip() as u64 });
            true
        },
    );
    stack
}

/// The names found so far, by instruction address. Looking up a name is
/// slow and addresses recur, so every name is looked up once.
pub struct SymbolCache {
    symbols: BTreeMap<u64, Symbol>,
}

impl View for SymbolCache {
    type V = Map<u64, Seq<char>>;

    closed spec fn view(&self) -> Map<u64, Seq<char>> {
        Map::new(|ip: u64| self.symbols@.contains_key(ip), |ip: u64| self.symbols@[ip]@)
    }
}

impl SymbolCache {
    /// A cache that holds no name.
    pub fn new() -> (cache: Self)
        ensures
            cache@ == Map::<u64, Seq<char>>::empty(),
    {
        let cache = SymbolCache { symbols: BTreeMap::new() };
        proof {
            assert(cache@ =~= Map::<u64, Seq<char>>::empty());
        }
        cache
    }

    /// The name held for `ip`, if one is.
    pub fn get(&self, ip: u64) -> (symbol: Option<&Symbol>)
        ensures
            symbol is Some <==> self@.contains_key(ip),
            symbol is Some ==> symbol->0@ == self@[ip],
    {
        self.symbols.get(&ip)
    }

    /// Holds `symbol` for `ip` from now on.
    pub fn insert(&mut self, ip: u64, symbol: Symbol)
        ensures
            final(self)@ == old(self)@.insert(ip, symbol@),
    {
        self.symbols.insert(ip, symbol);
        proof {
            assert(self@ =~= old(self)@.insert(ip, symbol@));
        }
    }

    /// The symbol of the frame at instruction address `ip` whose function
    /// starts at `id`: the one held for `ip` if one is held; otherwise the
    /// name is looked up, and what `Symbol::found` makes of the outcome is
    /// held for `ip` and returned.
    pub fn symbolize(&mut self, ip: u64, id: u64) -> (symbol: Symbol)
        ensures
            old(self)@.contains_key(ip) ==> symbol@ == old(self)@[ip],
            final(self)@ == old(self)@.insert(ip, symbol@),
    {
        match self.get(ip) {
            Some(held) => {
                let symbol = held.copy();
                proof {
                    assert(self@ =~= old(self)@.insert(ip, symbol@));
                }
                symbol
            },
            None => {
                let symbol = Symbol::found(resolve_name(ip), id);
                self.insert(ip, symbol.copy());
                symbol
            },
        }
    }
}

/// The action that `node` stands for: a read for a read, and for a frame
/// a span that is called what `names` holds for the frame's instruction
/// address and holds what the frame's children stand for, in order.
pub open spec fn named(node: TreeNodeView, names: Map<u64, Seq<char>>) -> ActionView
    decreases node,
{
    match node {
        TreeNodeView::Read(count) => ActionView::Read(count),
        TreeNodeView::Frame(frame) => ActionView::Span(
            SpanView {
                name: names[frame.ip as u64],
                actions: Seq::new(
                    frame.children.len(),
                    |k: int|
                        if 0 <= k < frame.children.len() {
                            named(frame.children[k], names)
                        } else {
                            ActionView::Read(0)
                        },
                ),
            },
        ),
    }
}

/// `names` holds a name for every frame of `node`.
pub open spec fn covered(node: TreeNodeView, names: Map<u64, Seq<char>>) -> bool
    decreases node,
{
    match node {
        TreeNodeView::Read(_) => true,
        TreeNodeView::Frame(frame) => {
            &&& names.contains_key(frame.ip as u64)
            &&& forall|k: int|
                0 <= k < frame.children.len() ==> covered(#[trigger] frame.children[k], names)
        },
    }
}

/// Names added for other addresses change nothing of what a node stands
/// for.
pub proof fn lemma_named_stable(
    node: TreeNodeView,
    names: Map<u64, Seq<char>>,
    more: Map<u64, Seq<char>>,
)
    requires
        covered(node, names),
        names.submap_of(more),
    ensures
        covered(node, more),
        named(node, names) == named(node, more),
    decreases node,
{
    match node {
        TreeNodeView::Read(_) => {},
        TreeNodeView::Frame(frame) => {
            assert forall|k: int| 0 <= k < frame.children.len() implies covered(
                #[trigger] frame.children[k],
                more,
            ) && named(frame.children[k], names) == named(frame.children[k], more) by {
                lemma_named_stable(frame.children[k], names, more);
            }
            assert(named(node, names)->Span_0.actions =~= named(node, more)->Span_0.actions);
        },
    }
}

impl TreeNode {
    /// The action that this node stands for, every frame called what
    /// `symbols` makes of it. Names that `symbols` does not hold yet are
    /// looked up and held from then on; names that it holds stay.
    pub fn convert(&self, symbols: &mut SymbolCache) -> (action: Action<TreeSpan>)
        ensures
            old(symbols)@.submap_of(final(symbols)@),
            covered(self@, final(symbols)@),
            action@ == named(self@, final(symbols)@),
        decreases self@,
    {
        match self {
            TreeNode::Read { count } => Action::Read(*count),
            TreeNode::Frame(frame) => {
                let name = symbols.symbolize(frame.ip, frame.id);
                let ghost named_at = symbols@;
                proof {
                    assert(old(symbols)@.submap_of(named_at));
                    assert(named_at.contains_key(frame.ip) && named_at[frame.ip] == name@);
                }
                let mut actions: Vec<Action<TreeSpan>> = Vec::new();
                let count = frame.children.len();
                let mut i: usize = 0;
                while i < count
                    invariant
                        i <= count == frame.children.len(),
                        self@ == TreeNodeView::Frame(frame@),
                        old(symbols)@.submap_of(named_at),
                        named_at.contains_key(frame.ip) && named_at[frame.ip] == name@,
                        named_at.submap_of(symbols@),
                        actions.len() == i,
                        forall|k: int|
                            0 <= k < i ==> covered(#[trigger] frame@.children[k], symbols@),
                        forall|k: int|
                            0 <= k < i ==> (#[trigger] actions[k])@ == named(
                                frame@.children[k],
                                symbols@,
                            ),
                    decreases count - i,
                {
                    proof {
                        assert(decreases_to!(self@ => self@->Frame_0));
                        assert(frame@.children[i as int] == frame.children[i as int]@);
                    }
                    let ghost before = symbols@;
                    let child = frame.children[i].convert(symbols);
                    proof {
                        vstd::map_lib::lemma_submap_of_trans(named_at, before, symbols@);
                        assert forall|k: int| 0 <= k < i implies covered(
                            #[trigger] frame@.children[k],
                            symbols@,
                        ) && actions[k]@ == named(frame@.children[k], symbols@) by {
                            lemma_named_stable(frame@.children[k], before, symbols@);
                        }
                    }
                    actions.push(child);
                    i = i + 1;
                }
                let span = TreeSpan { name: name.copy().into_name(), actions };
                proof {
                    vstd::map_lib::lemma_submap_of_trans(old(symbols)@, named_at, symbols@);
                    assert(named_at.dom().contains(frame.ip));
                    assert(symbols@.dom().contains(frame.ip));
                    assert(symbols@[frame.ip] == name@);
                    assert(frame@.ip as u64 == frame.ip);
                    assert(span@.actions =~= named(self@, symbols@)->Span_0.actions);
                }
                Action::Span(span)
            },
        }
    }
}

/// Number of bytes that the first `upto` samples read.
pub open spec fn sampled(ops: Seq<Op>, upto: nat) -> nat
    decreases upto,
{
    if upto == 0 || upto > ops.len() {
        0
    } else {
        sampled(ops, (upto - 1) as nat) + ops[upto - 1].count as nat
    }
}

/// Number of bytes read in a node of the sample tree.
pub open spec fn frame_reads(node: TreeNodeView) -> nat
    decreases node,
{
    match node {
        TreeNodeView::Read(count) => count,
        TreeNodeView::Frame(frame) => frame_reads_all(frame.children),
    }
}

/// Number of bytes read in a list of nodes of the sample tree.
pub open spec fn frame_reads_all(children: Seq<TreeNodeView>) -> nat
    decreases children,
{
    if children.len() == 0 {
        0
    } else {
        frame_reads_all(children.drop_last()) + frame_reads(children.last())
    }
}

/// What the first samples read does not depend on the samples after them.
proof fn lemma_sampled_same(ops: Seq<Op>, more: Seq<Op>, upto: nat)
    requires
        upto <= ops.len() <= more.len(),
        forall|i: int| 0 <= i < ops.len() ==> ops[i] == more[i],
    ensures
        sampled(ops, upto) == sampled(more, upto),
    decreases upto,
{
    if upto > 0 {
        lemma_sampled_same(ops, more, (upto - 1) as nat);
    }
}

/// Inserting a read adds its bytes to those read in the frame.
pub proof fn lemma_inserted_reads(frame: FrameView, path: Seq<StackFrame>, count: nat)
    ensures
        frame_reads_all(inserted(frame, path, count).children) == frame_reads_all(frame.children)
            + count,
    decreases path.len(),
{
    let grown = inserted(frame, path, count).children;
    assert(frame_reads_all(grown) == frame_reads_all(grown.drop_last()) + frame_reads(
        grown.last(),
    ));
    if path.len() == 0 {
        assert(grown.drop_last() =~= frame.children);
        assert(frame_reads(grown.last()) == count);
    } else if frame.children.len() > 0 && frame.children.last() is Frame
        && frame.children.last()->Frame_0.id == path[0].id {
        let last = frame.children.last()->Frame_0;
        lemma_inserted_reads(last, path.drop_first(), count);
        assert(grown.drop_last() =~= frame.children.drop_last());
        assert(frame_reads(grown.last()) == frame_reads_all(
            inserted(last, path.drop_first(), count).children,
        ));
        assert(frame_reads(frame.children.last()) == frame_reads_all(last.children));
    } else {
        lemma_inserted_reads(empty_frame(path[0]), path.drop_first(), count);
        assert(grown.drop_last() =~= frame.children);
        assert(frame_reads(grown.last()) == frame_reads_all(
            inserted(empty_frame(path[0]), path.drop_first(), count).children,
        ));
        assert(frame_reads_all(empty_frame(path[0]).children) == 0);
    }
}

/// The tree grown from samples reads what the samples read.
pub proof fn lemma_grown_reads(ops: Seq<Op>, upto: nat)
    requires
        upto <= ops.len(),
    ensures
        frame_reads_all(grown(ops, upto).children) == sampled(ops, upto),
    decreases upto,
{
    if upto > 0 {
        lemma_grown_reads(ops, (upto - 1) as nat);
        lemma_inserted_reads(
            grown(ops, (upto - 1) as nat),
            retained_of(ops, upto - 1),
            ops[upto - 1].count as nat,
        );
    }
}

/// The action that a node stands for reads what is read in the node,
/// whatever the names.
pub proof fn lemma_named_reads(node: TreeNodeView, names: Map<u64, Seq<char>>)
    ensures
        total_read(named(node, names)) == frame_reads(node),
    decreases node, 0nat,
{
    match node {
        TreeNodeView::Read(_) => {},
        TreeNodeView::Frame(frame) => {
            lemma_named_reads_upto(frame, names, frame.children.len());
            let actions = named(node, names)->Span_0.actions;
            assert(actions.take(actions.len() as int) =~= actions);
            assert(frame.children.take(frame.children.len() as int) =~= frame.children);
        },
    }
}

/// The actions that the first `upto` children of a frame stand for read
/// what is read in these children.
pub proof fn lemma_named_reads_upto(frame: FrameView, names: Map<u64, Seq<char>>, upto: nat)
    requires
        upto <= frame.children.len(),
    ensures
        total_read_all(
            named(TreeNodeView::Frame(frame), names)->Span_0.actions.take(upto as int),
        ) == frame_reads_all(frame.children.take(upto as int)),
    decreases frame, upto,
{
    let actions = named(TreeNodeView::Frame(frame), names)->Span_0.actions;
    if upto > 0 {
        lemma_named_reads_upto(frame, names, (upto - 1) as nat);
        lemma_named_reads(frame.children[upto - 1], names);
        assert(actions.take(upto as int).drop_last() =~= actions.take(upto - 1));
        assert(frame.children.take(upto as int).drop_last() =~= frame.children.take(upto - 1));
    }
}

/// The sizes of the reads in a node of the sample tree, in the order in
/// which a walk through the node meets them.
pub open spec fn node_reads(node: TreeNodeView) -> Seq<nat>
    decreases node,
{
    match node {
        TreeNodeView::Read(count) => seq![count],
        TreeNodeView::Frame(frame) => node_reads_all(frame.children),
    }
}

/// The sizes of the reads in a list of nodes of the sample tree, in order.
pub open spec fn node_reads_all(children: Seq<TreeNodeView>) -> Seq<nat>
    decreases children,
{
    if children.len() == 0 {
        Seq::empty()
    } else {
        node_reads_all(children.drop_last()) + node_reads(children.last())
    }
}

/// An inserted read comes after every read that the frame held.
pub proof fn lemma_inserted_read_list(frame: FrameView, path: Seq<StackFrame>, count: nat)
    ensures
        node_reads_all(inserted(frame, path, count).children) == node_reads_all(
            frame.children,
        ).push(count),
    decreases path.len(),
{
    let grown = inserted(frame, path, count).children;
    assert(node_reads_all(grown) == node_reads_all(grown.drop_last()) + node_reads(grown.last()));
    if path.len() == 0 {
        assert(grown.drop_last() =~= frame.children);
        assert(node_reads(grown.last()) =~= seq![count]);
        assert(node_reads_all(frame.children) + seq![count] =~= node_reads_all(
            frame.children,
        ).push(count));
    } else if frame.children.len() > 0 && frame.children.last() is Frame
        && frame.children.last()->Frame_0.id == path[0].id {
        let last = frame.children.last()->Frame_0;
        let before = node_reads_all(frame.children.drop_last());
        lemma_inserted_read_list(last, path.drop_first(), count);
        assert(grown.drop_last() =~= frame.children.drop_last());
        assert(node_reads(grown.last()) == node_reads_all(
            inserted(last, path.drop_first(), count).children,
        ));
        assert(node_reads(frame.children.last()) == node_reads_all(last.children));
        assert(before + node_reads_all(last.children).push(count) =~= (before + node_reads_all(
            last.children,
        )).push(count));
    } else {
        let fresh = empty_frame(path[0]);
        lemma_inserted_read_list(fresh, path.drop_first(), count);
        assert(grown.drop_last() =~= frame.children);
        assert(node_reads(grown.last()) == node_reads_all(
            inserted(fresh, path.drop_first(), count).children,
        ));
        assert(node_reads_all(fresh.children) =~= Seq::<nat>::empty());
        assert(node_reads_all(frame.children) + Seq::<nat>::empty().push(count)
            =~= node_reads_all(frame.children).push(count));
    }
}

/// The reads of the tree grown from samples are those of the samples, in
/// the order taken.
pub proof fn lemma_grown_read_list(ops: Seq<Op>, upto: nat)
    requires
        upto <= ops.len(),
    ensures
        node_reads_all(grown(ops, upto).children) == counts(ops, upto),
    decreases upto,
{
    if upto > 0 {
        lemma_grown_read_list(ops, (upto - 1) as nat);
        lemma_inserted_read_list(
            grown(ops, (upto - 1) as nat),
            retained_of(ops, upto - 1),
            ops[upto - 1].count as nat,
        );
        assert(counts(ops, (upto - 1) as nat).push(ops[upto - 1].count as nat) =~= counts(
            ops,
            upto,
        ));
    } else {
        assert(node_reads_all(root_frame().children) =~= counts(ops, 0));
    }
}

/// The action that a node stands for holds no seek, and its reads are
/// those of the node, in order, whatever the names.
pub proof fn lemma_named_read_list(node: TreeNodeView, names: Map<u64, Seq<char>>)
    ensures
        seek_free(named(node, names)),
        reads_of(named(node, names)) == node_reads(node),
    decreases node, 0nat,
{
    match node {
        TreeNodeView::Read(_) => {},
        TreeNodeView::Frame(frame) => {
            lemma_named_read_list_upto(frame, names, frame.children.len());
            let actions = named(node, names)->Span_0.actions;
            assert(actions.take(actions.len() as int) =~= actions);
            assert(frame.children.take(frame.children.len() as int) =~= frame.children);
        },
    }
}

/// The actions that the first `upto` children of a frame stand for hold
/// no seek, and their reads are those of these children, in order.
pub proof fn lemma_named_read_list_upto(
    frame: FrameView,
    names: Map<u64, Seq<char>>,
    upto: nat,
)
    requires
        upto <= frame.children.len(),
    ensures
        seek_free_all(named(TreeNodeView::Frame(frame), names)->Span_0.actions.take(upto as int)),
        reads_of_all(named(TreeNodeView::Frame(frame), names)->Span_0.actions.take(upto as int))
            == node_reads_all(frame.children.take(upto as int)),
    decreases frame, upto,
{
    let actions = named(TreeNodeView::Frame(frame), names)->Span_0.actions;
    if upto > 0 {
        lemma_named_read_list_upto(frame, names, (upto - 1) as nat);
        lemma_named_read_list(frame.children[upto - 1], names);
        assert(actions.take(upto as int).drop_last() =~= actions.take(upto - 1));
        assert(frame.children.take(upto as int).drop_last() =~= frame.children.take(upto - 1));
    }
}

impl Default for Tracer {
    /// A tracer that has seen nothing and leaves no frame out.
    fn default() -> (tracer: Self)
        ensures
            tracer.wf(),
            tracer.bytes() == Seq::<u8>::empty(),
            tracer.samples() == Seq::<Op>::empty(),
            tracer.skip_frames() == 0,
    {
        Tracer::new()
    }
}

/// The number of leading frames that all of `stacks` share.
pub open spec fn skip_start_of(stacks: Seq<Seq<StackFrame>>) -> int {
    choose|k: int| is_common_start(stacks, k)
}

/// The number of trailing frames that all of `stacks` share beyond the
/// leading frames that they share.
pub open spec fn skip_end_of(stacks: Seq<Seq<StackFrame>>) -> int {
    choose|k: int| is_common_end(stacks, skip_start_of(stacks), k)
}

/// Only one number is the number of leading frames that all stacks share.
pub proof fn lemma_common_start_unique(stacks: Seq<Seq<StackFrame>>, a: int, b: int)
    requires
        is_common_start(stacks, a),
        is_common_start(stacks, b),
    ensures
        a == b,
{
    if stacks.len() > 0 {
        if a < b {
            assert forall|s: int, j: int|
                0 <= s < stacks.len() && 0 <= j < a + 1 implies #[trigger] agrees_at(
                stacks,
                s,
                j,
            ) by {}
        }
        if b < a {
            assert forall|s: int, j: int|
                0 <= s < stacks.len() && 0 <= j < b + 1 implies #[trigger] agrees_at(
                stacks,
                s,
                j,
            ) by {}
        }
    }
}

/// Only one number is the number of trailing frames that all stacks share.
pub proof fn lemma_common_end_unique(stacks: Seq<Seq<StackFrame>>, skip: int, a: int, b: int)
    requires
        is_common_end(stacks, skip, a),
        is_common_end(stacks, skip, b),
    ensures
        a == b,
{
    if stacks.len() > 0 {
        if a < b {
            assert forall|s: int, j: int|
                0 <= s < stacks.len() && 0 <= j < a + 1 implies #[trigger] agrees_at_end(
                stacks,
                skip,
                s,
                j,
            ) by {}
        }
        if b < a {
            assert forall|s: int, j: int|
                0 <= s < stacks.len() && 0 <= j < b + 1 implies #[trigger] agrees_at_end(
                stacks,
                skip,
                s,
                j,
            ) by {}
        }
    }
}

/// What is left of the stack of sample `i` once the frames that all
/// samples share at either end are set aside.
pub open spec fn retained_of(ops: Seq<Op>, i: int) -> Seq<StackFrame> {
    retained(
        ops[i].stack@,
        skip_start_of(stacks_of(ops)),
        skip_end_of(stacks_of(ops)),
    )
}

/// The root of the sample tree before any sample: it stands for no call,
/// holds nothing, and its addresses are never looked at.
pub open spec fn root_frame() -> FrameView {
    FrameView { id: 0, ip: 0, children: Seq::empty() }
}

/// The tree grown from the first `upto` samples: it starts as the empty
/// root, and every sample is inserted in turn, with what its stack retains,
/// from the root inwards. A sample that retains no frame puts its read
/// directly under the root.
pub open spec fn grown(ops: Seq<Op>, upto: nat) -> FrameView
    decreases upto,
{
    if upto == 0 {
        root_frame()
    } else {
        inserted(
            grown(ops, (upto - 1) as nat),
            retained_of(ops, upto - 1),
            ops[upto - 1].count as nat,
        )
    }
}

/// The actions of the root span of the trace of `ops`: what the nodes
/// directly under the root of the grown tree stand for, in order.
pub open spec fn root_actions(ops: Seq<Op>, names: Map<u64, Seq<char>>) -> Seq<ActionView> {
    Seq::new(
        grown(ops, ops.len()).children.len(),
        |k: int| named(grown(ops, ops.len()).children[k], names),
    )
}

/// The sizes of the first `upto` samples, in the order taken.
pub open spec fn counts(ops: Seq<Op>, upto: nat) -> Seq<nat> {
    Seq::new(upto, |i: int| ops[i].count as nat)
}

/// A captured stack, which comes innermost frame first, without its
/// first `skip` frames and turned outermost frame first.
pub open spec fn outermost_first(captured: Seq<StackFrame>, skip: nat) -> Seq<StackFrame> {
    Seq::new(
        if skip >= captured.len() {
            0
        } else {
            (captured.len() - skip) as nat
        },
        |i: int| captured[captured.len() - 1 - i],
    )
}

impl Tracer {
    /// The data holds as many bytes as the samples read. This holds of a
    /// new tracer and keeps holding as reads are recorded.
    pub closed spec fn wf(&self) -> bool {
        self.data@.len() == sampled(self.ops@, self.ops@.len())
    }

    /// The bytes read so far, in the order read.
    pub closed spec fn bytes(&self) -> Seq<u8> {
        self.data@
    }

    /// The samples taken so far, in the order taken.
    pub closed spec fn samples(&self) -> Seq<Op> {
        self.ops@
    }

    /// Number of innermost frames left out of every captured stack.
    pub closed spec fn skip_frames(&self) -> nat {
        self.options.skip_frames as nat
    }

    /// A tracer that has seen nothing and leaves no frame out.
    pub fn new() -> (tracer: Self)
        ensures
            tracer.wf(),
            tracer.bytes() == Seq::<u8>::empty(),
            tracer.samples() == Seq::<Op>::empty(),
            tracer.skip_frames() == 0,
    {
        Tracer { data: Vec::new(), ops: Vec::new(), options: TracerOptions { skip_frames: 0 } }
    }

    /// A tracer that has seen nothing and captures as `options` say.
    pub fn new_options(options: TracerOptions) -> (tracer: Self)
        ensures
            tracer.wf(),
            tracer.bytes() == Seq::<u8>::empty(),
            tracer.samples() == Seq::<Op>::empty(),
            tracer.skip_frames() == options.skip_frames,
    {
        Tracer { data: Vec::new(), ops: Vec::new(), options }
    }

    /// The bytes read so far.
    pub fn data(&self) -> (data: &[u8])
        ensures
            data@ == self.bytes(),
    {
        self.data.as_slice()
    }

    /// Number of samples taken so far.
    pub fn len(&self) -> (n: usize)
        ensures
            n == self.samples().len(),
    {
        self.ops.len()
    }

    /// Records that `bytes` were read from the call stack `captured`,
    /// given innermost frame first: the bytes are appended to the data, and
    /// a sample is added for them.
    pub fn record(&mut self, captured: Vec<StackFrame>, bytes: &[u8])
        ensures
            final(self).bytes() == old(self).bytes() + bytes@,
            final(self).skip_frames() == old(self).skip_frames(),
            final(self).samples().len() == old(self).samples().len() + 1,
            final(self).samples().drop_last() == old(self).samples(),
            final(self).samples().last().count == bytes@.len(),
            final(self).samples().last().stack@ == outermost_first(
                captured@,
                old(self).skip_frames(),
            ),
            old(self).wf() ==> final(self).wf(),
    {
        let mut stack: Vec<StackFrame> = Vec::new();
        let skip = self.options.skip_frames;
        let len = captured.len();
        let mut i: usize = len;
        while i > skip
            invariant
                i <= len == captured.len(),
                skip < len ==> skip <= i,
                skip >= len ==> i == len,
                stack.len() == len - i,
                forall|k: int| 0 <= k < stack.len() ==> stack[k] == captured[len - 1 - k],
            decreases i,
        {
            i = i - 1;
            stack.push(captured[i]);
        }
        proof {
            assert(stack@ =~= outermost_first(captured@, skip as nat));
        }
        let ghost before = self.ops@;
        self.ops.push(Op { count: bytes.len(), stack });
        self.data.extend_from_slice(bytes);
        proof {
            assert(self.ops@.drop_last() =~= before);
            assert(self.data@ =~= old(self).data@ + bytes@);
            lemma_sampled_same(before, self.ops@, before.len());
        }
    }

    /// Records a read of `bytes` made from wherever this is called: the
    /// bytes are appended to the data, and a sample is added for them with
    /// the call stack as it is found.
    pub fn read(&mut self, bytes: &[u8])
        ensures
            final(self).bytes() == old(self).bytes() + bytes@,
            final(self).skip_frames() == old(self).skip_frames(),
            final(self).samples().len() == old(self).samples().len() + 1,
            final(self).samples().drop_last() == old(self).samples(),
            final(self).samples().last().count == bytes@.len(),
            old(self).wf() ==> final(self).wf(),
    {
        let captured = capture_stack();
        self.record(captured, bytes);
    }

    /// The nodes directly under the root of the tree grown from the samples,
    /// in order.
    pub fn frames(&self) -> (nodes: Vec<TreeNode>)
        ensures
            nodes.len() == grown(self.samples(), self.samples().len()).children.len(),
            forall|k: int|
                0 <= k < nodes.len() ==> (#[trigger] nodes[k])@ == grown(
                    self.samples(),
                    self.samples().len(),
                ).children[k],
    {
        let count = self.ops.len();
        let ghost stacks = stacks_of(self.ops@);
        let skip_start = common_start(&self.ops);
        let skip_end = common_end(&self.ops, skip_start);
        proof {
            lemma_common_start_unique(stacks, skip_start as int, skip_start_of(stacks));
            lemma_common_end_unique(
                stacks,
                skip_start as int,
                skip_end as int,
                skip_end_of(stacks),
            );
        }
        // the root stands for no call: only what is under it is kept
        let mut root = Frame::new(0, 0);
        let mut i: usize = 0;
        while i < count
            invariant
                i <= count == self.ops.len(),
                skip_start == skip_start_of(stacks_of(self.ops@)),
                skip_end == skip_end_of(stacks_of(self.ops@)),
                forall|s: int|
                    0 <= s < self.ops.len() ==> skip_start + skip_end <= (
                    #[trigger] self.ops[s]).stack.len(),
                root@ == grown(self.ops@, i as nat),
            decreases count - i,
        {
            let op = &self.ops[i];
            let path = vstd::slice::slice_subrange(
                op.stack.as_slice(),
                skip_start,
                op.stack.len() - skip_end,
            );
            root.insert(path, op.count);
            i = i + 1;
        }
        root.children
    }

    /// The retained frames of every sample: its stack without the frames
    /// that all samples share at either end.
    pub fn retained_frames(&self) -> (kept: Vec<Vec<StackFrame>>)
        ensures
            kept.len() == self.samples().len(),
            forall|i: int|
                0 <= i < kept.len() ==> (#[trigger] kept[i])@ == retained_of(self.samples(), i),
    {
        let count = self.ops.len();
        let ghost stacks = stacks_of(self.ops@);
        let skip_start = common_start(&self.ops);
        let skip_end = common_end(&self.ops, skip_start);
        proof {
            lemma_common_start_unique(stacks, skip_start as int, skip_start_of(stacks));
            lemma_common_end_unique(
                stacks,
                skip_start as int,
                skip_end as int,
                skip_end_of(stacks),
            );
        }
        let mut kept: Vec<Vec<StackFrame>> = Vec::new();
        let mut i: usize = 0;
        while i < count
            invariant
                i <= count == self.ops.len(),
                skip_start == skip_start_of(stacks_of(self.ops@)),
                skip_end == skip_end_of(stacks_of(self.ops@)),
                forall|s: int|
                    0 <= s < self.ops.len() ==> skip_start + skip_end <= (
                    #[trigger] self.ops[s]).stack.len(),
                kept.len() == i,
                forall|k: int|
                    0 <= k < i ==> (#[trigger] kept[k])@ == retained_of(self.ops@, k),
            decreases count - i,
        {
            let stack = &self.ops[i].stack;
            let mut frames: Vec<StackFrame> = Vec::new();
            let end = stack.len() - skip_end;
            let mut j: usize = skip_start;
            while j < end
                invariant
                    skip_start <= j <= end <= stack.len(),
                    frames@ == stack@.subrange(skip_start as int, j as int),
                decreases end - j,
            {
                frames.push(stack[j]);
                proof {
                    assert(frames@ =~= stack@.subrange(skip_start as int, j + 1));
                }
                j = j + 1;
            }
            kept.push(frames);
            i = i + 1;
        }
        kept
    }

    /// The trace of what was sampled: the data read, and under a root span
    /// called "root" the span tree grown from the samples, every frame
    /// called what `symbols` makes of it. The tree holds no seek, and its
    /// reads are, in order, those of the samples.
    pub fn trace(&self, symbols: &mut SymbolCache) -> (trace: Trace)
        ensures
            trace.data@ == self.bytes(),
            trace.start_index == 0,
            trace.root@ == ActionView::Span(
                SpanView {
                    name: "root"@,
                    actions: root_actions(self.samples(), final(symbols)@),
                },
            ),
            old(symbols)@.submap_of(final(symbols)@),
            seek_free(trace.root@),
            reads_of(trace.root@) == counts(self.samples(), self.samples().len()),
            self.wf() ==> total_read(trace.root@) == trace.data@.len(),
            self.wf() ==> replay(trace.root@, trace.data@, 0) == trace.data@,
    {
        let nodes = self.frames();
        let ghost tree = grown(self.ops@, self.ops@.len());
        let mut actions: Vec<Action<TreeSpan>> = Vec::new();
        let count = nodes.len();
        let mut i: usize = 0;
        while i < count
            invariant
                i <= count == nodes.len(),
                count == tree.children.len(),
                forall|k: int| 0 <= k < count ==> (#[trigger] nodes[k])@ == tree.children[k],
                old(symbols)@.submap_of(symbols@),
                actions.len() == i,
                forall|k: int| 0 <= k < i ==> covered(#[trigger] tree.children[k], symbols@),
                forall|k: int|
                    0 <= k < i ==> (#[trigger] actions[k])@ == named(
                        tree.children[k],
                        symbols@,
                    ),
            decreases count - i,
        {
            let ghost before = symbols@;
            let action = nodes[i].convert(symbols);
            proof {
                vstd::map_lib::lemma_submap_of_trans(old(symbols)@, before, symbols@);
                assert forall|k: int| 0 <= k < i implies covered(
                    #[trigger] tree.children[k],
                    symbols@,
                ) && actions[k]@ == named(tree.children[k], symbols@) by {
                    lemma_named_stable(tree.children[k], before, symbols@);
                }
            }
            actions.push(action);
            i = i + 1;
        }
        let span = TreeSpan { name: "root".to_owned(), actions };
        proof {
            let under = named(TreeNodeView::Frame(tree), symbols@)->Span_0.actions;
            assert(span@.actions =~= root_actions(self.samples(), symbols@));
            assert(span@.actions =~= under);
            lemma_named_reads(TreeNodeView::Frame(tree), symbols@);
            lemma_grown_reads(self.ops@, self.ops@.len());
            lemma_named_read_list(TreeNodeView::Frame(tree), symbols@);
            lemma_grown_read_list(self.ops@, self.ops@.len());
            assert(total_read(ActionView::Span(span@)) == total_read_all(under));
            assert(reads_of(ActionView::Span(span@)) == reads_of_all(under));
            assert(seek_free(ActionView::Span(span@)) == seek_free_all(under));
            if self.wf() {
                lemma_replay_is_data(ActionView::Span(span@), self.data@);
            }
        }
        Trace { data: self.data.clone(), start_index: 0, root: Action::Span(span) }
    }
}

} // verus!
