//! Compact, order-preserving identifiers of tree nodes.
//!
//! A path is the concatenation, for every level descended, of the child
//! index taken at that level, written big-endian in as few bytes as the
//! number of siblings at that level needs.

use vstd::prelude::*;
use vstd::arithmetic::logarithm::log;

verus! {

/// Number of bytes that hold a child index where `max` siblings exist:
/// one byte for `max == 0`, otherwise `floor(log2(max) / 8) + 1`.
pub open spec fn index_width(max: nat) -> nat {
    if max == 0 {
        1
    } else {
        (log(2, max as int) / 8 + 1) as nat
    }
}

/// The `width` low-order bytes of `n`, most significant byte first.
pub open spec fn be_bytes(n: nat, width: nat) -> Seq<u8>
    decreases width,
{
    if width == 0 {
        Seq::empty()
    } else {
        be_bytes(n / 256, (width - 1) as nat).push((n % 256) as u8)
    }
}

/// The number spelled by `bytes`, read most significant byte first.
pub open spec fn be_value(bytes: Seq<u8>) -> nat
    decreases bytes.len(),
{
    if bytes.len() == 0 {
        0
    } else {
        be_value(bytes.drop_last()) * 256 + bytes.last() as nat
    }
}

/// `256` to the power `width`: the number of values that `width` bytes hold.
pub open spec fn capacity(width: nat) -> nat
    decreases width,
{
    if width == 0 {
        1
    } else {
        256 * capacity((width - 1) as nat)
    }
}

/// Width computed by counting base-256 digits of `max`.
spec fn digit_count(max: nat) -> nat
    decreases max,
{
    if max < 256 {
        1
    } else {
        1 + digit_count(max / 256)
    }
}

/// Numbers below 256 have a binary logarithm below 8.
proof fn lemma_log2_small(m: int)
    requires
        1 <= m < 256,
    ensures
        0 <= log(2, m) < 8,
{
    reveal_with_fuel(log, 9);
}

/// Dividing by 256 takes 8 off the binary logarithm.
proof fn lemma_log2_shift8(m: int)
    requires
        m >= 256,
    ensures
        log(2, m) == 8 + log(2, m / 256),
{
    reveal_with_fuel(log, 9);
    assert(m / 2 / 2 / 2 / 2 / 2 / 2 / 2 / 2 == m / 256);
}

/// Counting base-256 digits gives the width of an index.
proof fn lemma_digit_count_is_width(max: nat)
    ensures
        digit_count(max) == index_width(max),
    decreases max,
{
    if max == 0 {
    } else if max < 256 {
        lemma_log2_small(max as int);
    } else {
        lemma_log2_shift8(max as int);
        lemma_digit_count_is_width(max / 256);
        vstd::arithmetic::logarithm::lemma_log_nonnegative(2, (max / 256) as int);
    }
}


/// Numbers of 32 bits have at most 4 digits, numbers of 64 bits at most 8.
proof fn lemma_digit_count_bound(x: nat)
    ensures
        digit_count(x) >= 1,
        x <= 0xffff_ffff ==> digit_count(x) <= 4,
        x <= 0xffff_ffff_ffff_ffff ==> digit_count(x) <= 8,
{
    reveal_with_fuel(digit_count, 9);
}

/// The capacities of up to eight bytes.
proof fn lemma_capacity_values()
    ensures
        capacity(0) == 1,
        capacity(1) == 0x100,
        capacity(2) == 0x1_0000,
        capacity(3) == 0x100_0000,
        capacity(4) == 0x1_0000_0000,
        capacity(5) == 0x100_0000_0000,
        capacity(6) == 0x1_0000_0000_0000,
        capacity(7) == 0x100_0000_0000_0000,
        capacity(8) == 0x1_0000_0000_0000_0000,
{
    reveal_with_fuel(capacity, 10);
}

/// More bytes hold more values.
proof fn lemma_capacity_monotone(a: nat, b: nat)
    requires
        a <= b,
    ensures
        1 <= capacity(a) <= capacity(b),
    decreases b,
{
    if b == 0 {
    } else if a == b {
        lemma_capacity_monotone((a - 1) as nat, (b - 1) as nat);
    } else {
        lemma_capacity_monotone(a, (b - 1) as nat);
    }
}

/// The width of an index is the number of base-256 digits of the sibling
/// count: one below 256, and one more for every division by 256 before.
pub proof fn lemma_index_width_digits(max: nat)
    ensures
        index_width(max) == if max < 256 {
            1
        } else {
            1 + index_width(max / 256)
        },
{
    lemma_digit_count_is_width(max);
    lemma_digit_count_is_width(max / 256);
}

/// Every index takes at least one byte.
pub proof fn lemma_index_width_positive(max: nat)
    ensures
        index_width(max) >= 1,
{
    lemma_digit_count_is_width(max);
    lemma_digit_count_bound(max);
}

/// An index that does not exceed the sibling count fits the width chosen
/// for that count.
pub proof fn lemma_index_fits(max: nat, n: nat)
    requires
        n <= max,
    ensures
        n < capacity(index_width(max)),
{
    lemma_digit_count_is_width(max);
    lemma_digit_count_exceeds(max);
}

/// A number is below the capacity of its digits.
proof fn lemma_digit_count_exceeds(max: nat)
    ensures
        max < capacity(digit_count(max)),
    decreases max,
{
    if max < 256 {
        reveal_with_fuel(capacity, 2);
    } else {
        lemma_digit_count_exceeds(max / 256);
    }
}

/// The width chosen for any machine-sized sibling count addresses no more
/// values than a machine word holds.
pub proof fn lemma_width_fits_word(max: usize)
    ensures
        1 <= index_width(max as nat) <= 8,
        capacity(index_width(max as nat)) <= usize::MAX + 1,
{
    lemma_digit_count_is_width(max as nat);
    lemma_digit_count_bound(max as nat);
    lemma_capacity_values();
    if usize::MAX == 0xffff_ffff {
        lemma_capacity_monotone(index_width(max as nat), 4);
    } else {
        lemma_capacity_monotone(index_width(max as nat), 8);
    }
}

/// `be_bytes` yields exactly `width` bytes.
pub proof fn lemma_be_bytes_len(n: nat, width: nat)
    ensures
        be_bytes(n, width).len() == width,
    decreases width,
{
    if width > 0 {
        lemma_be_bytes_len(n / 256, (width - 1) as nat);
    }
}

/// A byte string spells a number below the capacity of its length.
pub proof fn lemma_be_value_bound(bytes: Seq<u8>)
    ensures
        be_value(bytes) < capacity(bytes.len()),
    decreases bytes.len(),
{
    if bytes.len() > 0 {
        lemma_be_value_bound(bytes.drop_last());
    }
}

/// Reading back the bytes written for `n` gives `n`, provided `n` fits the
/// width.
pub proof fn lemma_be_round_trip(n: nat, width: nat)
    requires
        n < capacity(width),
    ensures
        be_value(be_bytes(n, width)) == n,
    decreases width,
{
    if width > 0 {
        let head = be_bytes(n / 256, (width - 1) as nat);
        lemma_be_round_trip(n / 256, (width - 1) as nat);
        assert(be_bytes(n, width).drop_last() =~= head);
    }
}

/// Writing the number that a byte string spells, in as many bytes as the
/// string has, gives the string.
pub proof fn lemma_be_bytes_of_value(bytes: Seq<u8>)
    ensures
        be_bytes(be_value(bytes), bytes.len()) == bytes,
    decreases bytes.len(),
{
    if bytes.len() > 0 {
        lemma_be_bytes_of_value(bytes.drop_last());
        let value = be_value(bytes);
        assert(value / 256 == be_value(bytes.drop_last()));
        assert(value % 256 == bytes.last());
        assert(be_bytes(value, bytes.len()) =~= bytes);
    }
}

/// Width, in bytes, of a child index where `max` siblings exist.
pub fn width_of(max: usize) -> (w: usize)
    ensures
        w == index_width(max as nat),
        1 <= w <= 8,
{
    let mut w: usize = 1;
    let mut m: usize = max;
    proof {
        lemma_digit_count_bound(max as nat);
        lemma_digit_count_is_width(max as nat);
    }
    while m >= 256
        invariant
            1 <= w,
            w + digit_count(m as nat) == 1 + digit_count(max as nat),
            digit_count(max as nat) <= 8,
        decreases m,
    {
        proof {
            lemma_digit_count_bound((m / 256) as nat);
        }
        m = m / 256;
        w = w + 1;
    }
    w
}

/// The bytes of the path that takes, level by level, child `steps[i].1` of a
/// node with `steps[i].0` children.
pub open spec fn encode(steps: Seq<(nat, nat)>) -> Seq<u8>
    decreases steps.len(),
{
    if steps.len() == 0 {
        Seq::empty()
    } else {
        be_bytes(steps[0].1, index_width(steps[0].0)) + encode(steps.drop_first())
    }
}

/// The child indices that `bytes` spells, read front to back, where level
/// `i` has `maxes[i]` children.
pub open spec fn decode(bytes: Seq<u8>, maxes: Seq<nat>) -> Seq<nat>
    decreases maxes.len(),
{
    if maxes.len() == 0 {
        Seq::empty()
    } else {
        let width = index_width(maxes[0]) as int;
        seq![be_value(bytes.subrange(0, width))] + decode(
            bytes.subrange(width, bytes.len() as int),
            maxes.drop_first(),
        )
    }
}

/// `k` is the first position at which `a` and `b` part, and `a` is the
/// lesser there: `a` ends at `k` while `b` goes on, or `a` holds the
/// smaller byte.
pub open spec fn parts_below_at(a: Seq<u8>, b: Seq<u8>, k: int) -> bool {
    &&& 0 <= k <= a.len()
    &&& k < b.len()
    &&& a.subrange(0, k) == b.subrange(0, k)
    &&& (k == a.len() || a[k] < b[k])
}

/// Lexicographic order of byte strings.
pub open spec fn lex_less(a: Seq<u8>, b: Seq<u8>) -> bool {
    exists|k: int| parts_below_at(a, b, k)
}

/// Appending one more step to a list of steps appends its bytes.
pub proof fn lemma_encode_push(steps: Seq<(nat, nat)>, max: nat, n: nat)
    ensures
        encode(steps.push((max, n))) == encode(steps) + be_bytes(n, index_width(max)),
    decreases steps.len(),
{
    let longer = steps.push((max, n));
    if steps.len() == 0 {
        assert(longer.drop_first() =~= steps);
        assert(encode(longer) =~= be_bytes(n, index_width(max)) + encode(steps));
    } else {
        lemma_encode_push(steps.drop_first(), max, n);
        assert(longer.drop_first() =~= steps.drop_first().push((max, n)));
        assert(encode(longer) =~= encode(steps) + be_bytes(n, index_width(max)));
    }
}

/// Decoding an encoded path gives back the indices it was built from, as
/// long as no index exceeds the number of siblings at its level (so in
/// particular when every index is below that number).
pub proof fn lemma_path_round_trip(steps: Seq<(nat, nat)>)
    requires
        forall|i: int| 0 <= i < steps.len() ==> (#[trigger] steps[i]).1 <= steps[i].0,
    ensures
        decode(encode(steps), steps.map_values(|s: (nat, nat)| s.0)) == steps.map_values(
            |s: (nat, nat)| s.1,
        ),
    decreases steps.len(),
{
    let maxes = steps.map_values(|s: (nat, nat)| s.0);
    let indices = steps.map_values(|s: (nat, nat)| s.1);
    if steps.len() == 0 {
        assert(decode(encode(steps), maxes) =~= indices);
    } else {
        let rest = steps.drop_first();
        let width = index_width(steps[0].0);
        let head = be_bytes(steps[0].1, width);
        lemma_be_bytes_len(steps[0].1, width);
        lemma_index_fits(steps[0].0, steps[0].1);
        lemma_be_round_trip(steps[0].1, width);
        assert forall|i: int| 0 <= i < rest.len() implies (#[trigger] rest[i]).1 <= rest[i].0 by {
            assert(rest[i] == steps[i + 1]);
        }
        lemma_path_round_trip(rest);
        let bytes = encode(steps);
        assert(bytes.subrange(0, width as int) =~= head);
        assert(bytes.subrange(width as int, bytes.len() as int) =~= encode(rest));
        assert(maxes.drop_first() =~= rest.map_values(|s: (nat, nat)| s.0));
        assert(decode(bytes, maxes) =~= indices);
    }
}

/// Of two numbers written in the same width, the smaller has the smaller
/// byte at the first position `k` at which they differ.
proof fn lemma_be_bytes_order(n1: nat, n2: nat, width: nat) -> (k: int)
    requires
        n1 < n2 < capacity(width),
    ensures
        0 <= k < width,
        be_bytes(n1, width).subrange(0, k) == be_bytes(n2, width).subrange(0, k),
        be_bytes(n1, width)[k] < be_bytes(n2, width)[k],
    decreases width,
{
    let b1 = be_bytes(n1, width);
    let b2 = be_bytes(n2, width);
    lemma_be_bytes_len(n1, width);
    lemma_be_bytes_len(n2, width);
    assert(width > 0);
    let rest = (width - 1) as nat;
    lemma_be_bytes_len(n1 / 256, rest);
    lemma_be_bytes_len(n2 / 256, rest);
    if n1 / 256 == n2 / 256 {
        assert(b1.subrange(0, rest as int) =~= b2.subrange(0, rest as int));
        rest as int
    } else {
        let k = lemma_be_bytes_order(n1 / 256, n2 / 256, rest);
        assert(b1.subrange(0, k) =~= be_bytes(n1 / 256, rest).subrange(0, k));
        assert(b2.subrange(0, k) =~= be_bytes(n2 / 256, rest).subrange(0, k));
        k
    }
}

/// Of two children of one node, the one with the smaller index has the
/// smaller path, and so has everything below it: paths sort as a depth-first
/// walk visits. (`below1` and `below2` are what the paths hold beyond the
/// two children; both empty for the children themselves.)
pub proof fn lemma_sibling_order(
    prefix: Seq<u8>,
    max: nat,
    n1: nat,
    n2: nat,
    below1: Seq<u8>,
    below2: Seq<u8>,
)
    requires
        n1 < n2 <= max,
    ensures
        lex_less(
            prefix + be_bytes(n1, index_width(max)) + below1,
            prefix + be_bytes(n2, index_width(max)) + below2,
        ),
{
    let width = index_width(max);
    lemma_index_fits(max, n2);
    lemma_be_bytes_len(n1, width);
    lemma_be_bytes_len(n2, width);
    let k = lemma_be_bytes_order(n1, n2, width);
    let a = prefix + be_bytes(n1, width) + below1;
    let b = prefix + be_bytes(n2, width) + below2;
    let at = prefix.len() + k;
    assert(a.subrange(0, at) =~= prefix + be_bytes(n1, width).subrange(0, k));
    assert(b.subrange(0, at) =~= prefix + be_bytes(n2, width).subrange(0, k));
    assert(a[at] == be_bytes(n1, width)[k]);
    assert(b[at] == be_bytes(n2, width)[k]);
    assert(parts_below_at(a, b, at));
}

/// A node's path is smaller than the path of anything below it.
pub proof fn lemma_ancestor_order(path: Seq<u8>, below: Seq<u8>)
    requires
        below.len() > 0,
    ensures
        lex_less(path, path + below),
{
    assert((path + below).subrange(0, path.len() as int) =~= path.subrange(0, path.len() as int));
    assert(parts_below_at(path, path + below, path.len() as int));
}

/// Two byte strings part at one position only: where they agree up to
/// `k` and differ or end at `k`, one is below the other exactly if it is so
/// at `k`.
proof fn lemma_parts_once(a: Seq<u8>, b: Seq<u8>, k: int)
    requires
        0 <= k <= a.len(),
        k <= b.len(),
        a.subrange(0, k) == b.subrange(0, k),
        k == a.len() || k == b.len() || a[k] != b[k],
    ensures
        lex_less(a, b) == parts_below_at(a, b, k),
{
    if lex_less(a, b) {
        let j = choose|j: int| parts_below_at(a, b, j);
        assert(parts_below_at(a, b, j));
        if j < k {
            assert(a.subrange(0, k)[j] == a[j]);
            assert(b.subrange(0, k)[j] == b[j]);
            assert(false);
        }
        if j > k {
            assert(a.subrange(0, j)[k] == a[k]);
            assert(b.subrange(0, j)[k] == b[k]);
            assert(false);
        }
        assert(j == k);
    }
}

/// Identifier of a tree node: the encoded child indices from the root down.
///
/// Paths compare as their bytes do, so that the order of two paths is the
/// order in which a depth-first walk meets their nodes.
#[derive(Default, Debug, Clone, PartialEq, PartialOrd, Eq, Ord, Hash)]
pub struct Path<T = Vec<u8>>(T);

impl View for Path<Vec<u8>> {
    type V = Seq<u8>;

    closed spec fn view(&self) -> Seq<u8> {
        self.0@
    }
}

impl<'a> View for Path<&'a [u8]> {
    type V = Seq<u8>;

    closed spec fn view(&self) -> Seq<u8> {
        self.0@
    }
}

/// Appends the `width` low-order bytes of `n`, most significant first.
fn push_be(bytes: &mut Vec<u8>, n: usize, width: usize)
    ensures
        final(bytes)@ == old(bytes)@ + be_bytes(n as nat, width as nat),
    decreases width,
{
    if width > 0 {
        push_be(bytes, n / 256, width - 1);
        bytes.push((n % 256) as u8);
    }
}

impl Path<Vec<u8>> {
    /// The path of the root: no bytes.
    pub fn new() -> (p: Self)
        ensures
            p@ == Seq::<u8>::empty(),
    {
        Path(Vec::new())
    }

    /// Descends into child `n` of a node with `max` children: appends the
    /// low-order bytes of `n`, most significant first, in the width that
    /// `max` asks for.
    pub fn push(&mut self, max: usize, n: usize)
        ensures
            final(self)@ == old(self)@ + be_bytes(n as nat, index_width(max as nat)),
    {
        let width = width_of(max);
        push_be(&mut self.0, n, width);
    }

    /// Leaves a child of a node with `max` children: removes the bytes that
    /// the matching `push` appended.
    pub fn pop(&mut self, max: usize)
        requires
            old(self)@.len() >= index_width(max as nat),
        ensures
            final(self)@ == old(self)@.subrange(
                0,
                old(self)@.len() - index_width(max as nat),
            ),
    {
        let width = width_of(max);
        let len = self.0.len();
        self.0.truncate(len - width);
    }

    /// A borrowed cursor over the bytes of this path.
    pub fn as_slice(&self) -> (s: Path<&[u8]>)
        ensures
            s@ == self@,
    {
        Path(self.0.as_slice())
    }

    /// Number of bytes in the path.
    pub fn len(&self) -> (n: usize)
        ensures
            n == self@.len(),
    {
        self.0.len()
    }

    /// Whether this path and `other` hold the same bytes.
    pub fn same(&self, other: &Path) -> (same: bool)
        ensures
            same == (self@ == other@),
    {
        if self.0.len() != other.0.len() {
            return false;
        }
        let mut i: usize = 0;
        while i < self.0.len()
            invariant
                i <= self.0.len() == other.0.len(),
                forall|k: int| 0 <= k < i ==> self.0@[k] == other.0@[k],
            decreases self.0.len() - i,
        {
            if self.0[i] != other.0[i] {
                return false;
            }
            i = i + 1;
        }
        proof {
            assert(self.0@ =~= other.0@);
        }
        true
    }

    /// Whether this path comes before `other` in the order of paths.
    pub fn precedes(&self, other: &Path) -> (before: bool)
        ensures
            before == lex_less(self@, other@),
    {
        let mut i: usize = 0;
        while i < self.0.len() && i < other.0.len()
            invariant
                i <= self.0.len(),
                i <= other.0.len(),
                self.0@.subrange(0, i as int) == other.0@.subrange(0, i as int),
            decreases self.0.len() - i,
        {
            if self.0[i] != other.0[i] {
                proof {
                    lemma_parts_once(self.0@, other.0@, i as int);
                }
                return self.0[i] < other.0[i];
            }
            proof {
                assert(self.0@.subrange(0, i + 1) =~= self.0@.subrange(0, i as int).push(
                    self.0@[i as int],
                ));
                assert(other.0@.subrange(0, i + 1) =~= other.0@.subrange(0, i as int).push(
                    other.0@[i as int],
                ));
            }
            i = i + 1;
        }
        proof {
            lemma_parts_once(self.0@, other.0@, i as int);
        }
        i < other.0.len()
    }

    /// A copy of this path.
    pub fn copy(&self) -> (p: Self)
        ensures
            p@ == self@,
    {
        Path(self.0.clone())
    }
}

impl<'a> Path<&'a [u8]> {
    /// Number of bytes left in the cursor.
    pub fn len(&self) -> (n: usize)
        ensures
            n == self@.len(),
    {
        self.0.len()
    }

    /// Reads the child index at the front of the cursor, for a node with
    /// `max` children, and returns it with the cursor behind it.
    pub fn split_next(&self, max: usize) -> (r: (usize, Path<&'a [u8]>))
        requires
            self@.len() >= index_width(max as nat),
        ensures
            r.0 == be_value(self@.subrange(0, index_width(max as nat) as int)),
            r.1@ == self@.subrange(index_width(max as nat) as int, self@.len() as int),
    {
        let width = width_of(max);
        let arr = self.0;
        let mut result: usize = 0;
        let mut i: usize = 0;
        proof {
            lemma_width_fits_word(max);
        }
        while i < width
            invariant
                i <= width <= arr@.len(),
                width == index_width(max as nat),
                result == be_value(arr@.subrange(0, i as int)),
                capacity(width as nat) <= usize::MAX + 1,
            decreases width - i,
        {
            let byte = arr[i];
            proof {
                let next = arr@.subrange(0, i + 1);
                assert(next.drop_last() =~= arr@.subrange(0, i as int));
                assert(next.last() == byte);
                lemma_be_value_bound(next);
                lemma_capacity_monotone((i + 1) as nat, width as nat);
            }
            result = result * 256 + byte as usize;
            i = i + 1;
        }
        let rest = vstd::slice::slice_subrange(arr, width, arr.len());
        (result, Path(rest))
    }
}

} // verus!
