//! What a display of a trace computes before it draws: how a byte is
//! shown, which bytes a cell of an overview stands for and what kind
//! represents them, how far a hex view is scrolled, and what a read looks
//! like as a number or as text.

use vstd::prelude::*;
use vstd::string::StringExecFns;
use std::ops::Range;
use crate::hex::{hex_byte, push_hex_byte};

verus! {

/// The kind of a byte, by which it is coloured. The kinds are ordered as
/// they are listed, `Null` least.
#[derive(Clone, Copy, Debug, PartialEq, Eq, Structural, PartialOrd, Ord, Hash)]
pub enum ByteType {
    /// The byte 0.
    Null,
    /// Any byte that is neither 0 nor a printable character.
    Other,
    /// A printable character other than the space.
    Ascii,
}

/// How a byte is shown.
#[derive(Clone, Copy, Debug, PartialEq, Eq, Structural, PartialOrd, Ord, Hash)]
pub struct ByteStyle {
    pub byte_type: ByteType,
    pub symbol: char,
    pub highlight: bool,
}

/// `byte` is a printable character other than the space.
pub open spec fn is_graphic(byte: u8) -> bool {
    0x21 <= byte <= 0x7e
}

/// The kind of `byte`.
pub open spec fn kind_of(byte: u8) -> ByteType {
    if is_graphic(byte) {
        ByteType::Ascii
    } else if byte == 0 {
        ByteType::Null
    } else {
        ByteType::Other
    }
}

/// The place of a kind in the order of kinds.
pub open spec fn rank(kind: ByteType) -> nat {
    match kind {
        ByteType::Null => 0,
        ByteType::Other => 1,
        ByteType::Ascii => 2,
    }
}

/// `range` is given and holds `index`.
pub open spec fn selects(range: Option<Range<usize>>, index: int) -> bool {
    range matches Some(r) && r.start <= index < r.end
}

/// How the byte at position `index` is shown: by its kind, as itself if
/// it is printable and as a dot if it is not, and highlighted if `range`
/// holds its position.
pub fn byte_style(range: Option<Range<usize>>, index: usize, byte: u8) -> (style: ByteStyle)
    ensures
        style.byte_type == kind_of(byte),
        style.symbol == if is_graphic(byte) {
            byte as char
        } else {
            '.'
        },
        style.highlight == selects(range, index as int),
{
    let highlight = match range {
        Some(r) => r.start <= index && index < r.end,
        None => false,
    };
    if byte >= 0x21 && byte <= 0x7e {
        ByteStyle { byte_type: ByteType::Ascii, symbol: byte as char, highlight }
    } else if byte == 0 {
        ByteStyle { byte_type: ByteType::Null, symbol: '.', highlight }
    } else {
        ByteStyle { byte_type: ByteType::Other, symbol: '.', highlight }
    }
}

impl ByteType {
    /// The place of this kind in the order of kinds.
    pub fn order(self) -> (place: u8)
        ensures
            place == rank(self),
    {
        match self {
            ByteType::Null => 0,
            ByteType::Other => 1,
            ByteType::Ascii => 2,
        }
    }

    /// The lesser of two kinds.
    pub fn lesser(self, other: ByteType) -> (kind: ByteType)
        ensures
            kind == if rank(self) <= rank(other) {
                self
            } else {
                other
            },
    {
        if self.order() <= other.order() {
            self
        } else {
            other
        }
    }
}

/// How many of `bytes` are of kind `kind`.
pub open spec fn count_kind(bytes: Seq<u8>, kind: ByteType) -> nat
    decreases bytes.len(),
{
    if bytes.len() == 0 {
        0
    } else {
        count_kind(bytes.drop_last(), kind) + if kind_of(bytes.last()) == kind {
            1nat
        } else {
            0nat
        }
    }
}

/// Kind `a` represents `bytes` rather than kind `b`: it is the more
/// frequent, or as frequent and the greater kind.
pub open spec fn outranks(bytes: Seq<u8>, a: ByteType, b: ByteType) -> bool {
    count_kind(bytes, a) > count_kind(bytes, b) || (count_kind(bytes, a) == count_kind(bytes, b)
        && rank(a) > rank(b))
}

/// `kind` represents `bytes`: it occurs, and it outranks the other kinds.
pub open spec fn represents(bytes: Seq<u8>, kind: ByteType) -> bool {
    &&& count_kind(bytes, kind) > 0
    &&& kind != ByteType::Null ==> outranks(bytes, kind, ByteType::Null)
    &&& kind != ByteType::Other ==> outranks(bytes, kind, ByteType::Other)
    &&& kind != ByteType::Ascii ==> outranks(bytes, kind, ByteType::Ascii)
}

/// Every kind occurs at most as often as there are bytes.
pub proof fn lemma_count_kind_bound(bytes: Seq<u8>, kind: ByteType)
    ensures
        count_kind(bytes, kind) <= bytes.len(),
    decreases bytes.len(),
{
    if bytes.len() > 0 {
        lemma_count_kind_bound(bytes.drop_last(), kind);
    }
}

/// The kind that represents `bytes`: the most frequent kind, and of
/// equally frequent kinds the greatest. No bytes have no kind.
pub fn dominant(bytes: &[u8]) -> (kind: Option<ByteType>)
    ensures
        kind is None <==> bytes@.len() == 0,
        kind matches Some(k) ==> represents(bytes@, k),
{
    let mut nulls: usize = 0;
    let mut others: usize = 0;
    let mut graphics: usize = 0;
    let mut i: usize = 0;
    while i < bytes.len()
        invariant
            i <= bytes.len(),
            nulls == count_kind(bytes@.take(i as int), ByteType::Null),
            others == count_kind(bytes@.take(i as int), ByteType::Other),
            graphics == count_kind(bytes@.take(i as int), ByteType::Ascii),
        decreases bytes.len() - i,
    {
        proof {
            let upto = bytes@.take(i + 1);
            assert(upto.drop_last() =~= bytes@.take(i as int));
            lemma_count_kind_bound(upto, ByteType::Null);
            lemma_count_kind_bound(upto, ByteType::Other);
            lemma_count_kind_bound(upto, ByteType::Ascii);
        }
        let byte = bytes[i];
        if byte >= 0x21 && byte <= 0x7e {
            graphics = graphics + 1;
        } else if byte == 0 {
            nulls = nulls + 1;
        } else {
            others = others + 1;
        }
        i = i + 1;
    }
    proof {
        assert(bytes@.take(i as int) =~= bytes@);
        if bytes@.len() > 0 {
            assert(count_kind(bytes@, kind_of(bytes@.last())) > 0);
        }
    }
    if graphics > 0 && graphics >= others && graphics >= nulls {
        Some(ByteType::Ascii)
    } else if others > 0 && others >= nulls {
        Some(ByteType::Other)
    } else if nulls > 0 {
        Some(ByteType::Null)
    } else {
        None
    }
}

/// What a cell of an overview shows.
#[derive(Clone, Copy, Debug, PartialEq, Eq, Structural)]
pub enum CellKind {
    /// One of the bytes of the cell is selected.
    Highlight,
    /// None is selected, and this kind represents the bytes of the cell.
    Kind(ByteType),
    /// The cell stands for no byte.
    Empty,
}

/// The grid of an overview: cells `(x, y)` with `x` up to `px_width` and
/// `y` up to `px_height`, both included.
#[derive(Clone, Copy, Debug, PartialEq, Eq, Structural)]
pub struct Grid {
    pub px_width: usize,
    pub px_height: usize,
}

/// The margin that an overview keeps free, in cells.
pub const MARGIN: usize = 3;

impl Grid {
    /// The grid is one made for a drawing area: no wider or higher than
    /// such an area can make it.
    pub open spec fn wf(&self) -> bool {
        self.px_width <= 0xffff && self.px_height <= 0x1ffff
    }

    /// The number by which the data is divided among the cells.
    pub open spec fn pixels(&self) -> int {
        1 + self.px_width * (self.px_height + 1)
    }

    /// The place of cell `(x, y)` in the order of cells, row by row.
    pub open spec fn cell_index(&self, x: int, y: int) -> int {
        x + y * self.px_width
    }

    /// The first byte that cell `(x, y)` stands for, of `len` bytes.
    pub open spec fn cell_start(&self, x: int, y: int, len: int) -> int {
        self.cell_index(x, y) * len / self.pixels()
    }

    /// The end of the bytes that cell `(x, y)` stands for, of `len` bytes:
    /// the quotient that gives the start of the next cell, rounded up.
    pub open spec fn cell_end(&self, x: int, y: int, len: int) -> int {
        ((self.cell_index(x, y) + 1) * len + self.pixels() - 1) / self.pixels()
    }

    /// The grid of an overview drawn in an area `width` columns wide and
    /// `height` rows high, each row two cells high, or `None` if the area
    /// is smaller than the margin.
    pub fn for_area(width: u16, height: u16) -> (grid: Option<Grid>)
        ensures
            grid is Some <==> width >= MARGIN && 2 * height >= MARGIN,
            grid matches Some(g) ==> g.wf() && g.px_width == width - MARGIN && g.px_height == 2
                * height - MARGIN,
    {
        let wide = width as usize;
        let high = 2 * (height as usize);
        if wide < MARGIN || high < MARGIN {
            None
        } else {
            Some(Grid { px_width: wide - MARGIN, px_height: high - MARGIN })
        }
    }

    /// The bytes that cell `(x, y)` stands for, of `len` bytes, as the
    /// position of the first and the position after the last.
    pub fn cell_bounds(&self, x: usize, y: usize, len: usize) -> (bounds: (usize, usize))
        requires
            self.wf(),
            x <= self.px_width,
            y <= self.px_height,
        ensures
            bounds.0 == self.cell_start(x as int, y as int, len as int),
            bounds.1 == self.cell_end(x as int, y as int, len as int),
            bounds.0 <= bounds.1 <= len,
    {
        let wide = self.px_width as u128;
        let high = self.px_height as u128;
        assert(wide * (high + 1) <= 0xffff * 0x20000) by (nonlinear_arith)
            requires
                wide <= 0xffff,
                high <= 0x1ffff,
        ;
        assert((y as u128) * wide <= 0x1ffff * 0xffff) by (nonlinear_arith)
            requires
                wide <= 0xffff,
                y <= 0x1ffff,
        ;
        let pixels: u128 = 1 + wide * (high + 1);
        let index: u128 = x as u128 + (y as u128) * wide;
        assert(index < pixels) by (nonlinear_arith)
            requires
                index == x + y * wide,
                pixels == 1 + wide * (high + 1),
                x <= wide,
                y <= high,
        ;
        let size = len as u128;
        assert(index * size <= 0x2_0000_0000 * 0x1_0000_0000_0000_0000) by (nonlinear_arith)
            requires
                index <= 0x2_0000_0000,
                size <= 0x1_0000_0000_0000_0000,
        ;
        assert((index + 1) * size <= 0x2_0000_0000 * 0x1_0000_0000_0000_0000) by (nonlinear_arith)
            requires
                index + 1 <= 0x2_0000_0000,
                size <= 0x1_0000_0000_0000_0000,
        ;
        let start: u128 = index * size / pixels;
        let end: u128 = ((index + 1) * size + pixels - 1) / pixels;
        assert(start <= end <= size) by (nonlinear_arith)
            requires
                start == index * size / (pixels as int),
                end == ((index + 1) * size + pixels - 1) / (pixels as int),
                0 <= index < pixels,
                0 <= size,
        ;
        (start as usize, end as usize)
    }
}

/// One of the positions from `start` up to `end` is selected by `range`.
pub open spec fn any_selected(range: Option<Range<usize>>, start: int, end: int) -> bool {
    exists|i: int| start <= i < end && #[trigger] selects(range, i)
}

/// What the cell that stands for the bytes of `data` from `start` up to
/// `end` shows, where `range` is selected: the highlight if one of these
/// bytes is selected, else the kind that represents them, and nothing if
/// there are none.
pub fn classify_cell(data: &[u8], start: usize, end: usize, range: Option<Range<usize>>) -> (kind:
    CellKind)
    requires
        start <= end <= data@.len(),
    ensures
        kind is Highlight <==> any_selected(range, start as int, end as int),
        kind is Empty <==> start == end,
        kind matches CellKind::Kind(k) ==> represents(
            data@.subrange(start as int, end as int),
            k,
        ),
{
    let highlight = match &range {
        Some(r) => {
            let hit = start < end && r.start < r.end && r.start < end && start < r.end;
            proof {
                if hit {
                    let at = if r.start > start {
                        r.start as int
                    } else {
                        start as int
                    };
                    assert(selects(range, at));
                }
            }
            hit
        },
        None => false,
    };
    if highlight {
        return CellKind::Highlight;
    }
    let bytes = vstd::slice::slice_subrange(data, start, end);
    match dominant(bytes) {
        Some(kind) => CellKind::Kind(kind),
        None => CellKind::Empty,
    }
}

/// Number of rows that `len` bytes fill, `columns` to a row.
pub open spec fn row_count(len: int, columns: int) -> int {
    (len + columns - 1) / columns
}

/// The row to which a hex view of `len` bytes, `columns` to a row and
/// `height` rows high, is scrolled for a selection that begins at `start`:
/// the share of the rows that `start` is of the bytes, less half the
/// height, and not less than 0.
pub open spec fn scroll_row(len: int, columns: int, start: int, height: int) -> int {
    let row = row_count(len, columns) * start / len - height / 2;
    if row < 0 {
        0
    } else {
        row
    }
}

/// The state of a hex view: how many bytes it shows in a row, at least 1.
#[derive(Debug)]
pub struct HexState {
    columns: usize,
}

impl HexState {
    /// Number of bytes in a row.
    pub closed spec fn width(&self) -> usize {
        self.columns
    }

    /// A row holds at least one byte.
    #[verifier::type_invariant]
    spec fn at_least_one(&self) -> bool {
        self.columns >= 1
    }

    /// Number of bytes in a row.
    pub fn columns(&self) -> (columns: usize)
        ensures
            columns == self.width(),
            columns >= 1,
    {
        proof {
            use_type_invariant(self);
        }
        self.columns
    }

    /// One byte fewer in a row, if there is more than one. Returns whether
    /// the state changed.
    pub fn dec_columns(&mut self) -> (changed: bool)
        ensures
            changed == (old(self).width() > 1),
            final(self).width() == if changed {
                (old(self).width() - 1) as usize
            } else {
                old(self).width()
            },
    {
        if self.columns > 1 {
            self.columns = self.columns - 1;
            true
        } else {
            false
        }
    }

    /// One byte more in a row. Returns whether the state changed, which it
    /// always does.
    pub fn inc_columns(&mut self) -> (changed: bool)
        requires
            old(self).width() < usize::MAX,
        ensures
            changed,
            final(self).width() == old(self).width() + 1,
    {
        self.columns = self.columns + 1;
        true
    }

    /// Number of columns of the screen that the view asks for: four for
    /// every byte, and thirteen more.
    pub fn desired_width(&self) -> (width: u16)
        requires
            self.width() * 4 + 13 <= u16::MAX,
        ensures
            width == self.width() * 4 + 13,
    {
        self.columns as u16 * 4 + 13
    }

    /// Number of rows that `len` bytes fill.
    pub fn rows(&self, len: usize) -> (rows: usize)
        ensures
            rows == row_count(len as int, self.width() as int),
            rows <= len,
    {
        proof {
            use_type_invariant(self);
        }
        let columns = self.columns;
        let full = len / columns;
        assert(len % columns != 0 ==> full < len) by (nonlinear_arith)
            requires
                columns >= 1,
                full == len / columns,
        ;
        let rows = if len % columns == 0 {
            full
        } else {
            full + 1
        };
        assert(rows == (len + columns - 1) / (columns as int) && rows <= len) by (nonlinear_arith)
            requires
                columns >= 1,
                full == len / columns,
                rows == if len % columns == 0 {
                    full as int
                } else {
                    full + 1
                },
        ;
        rows
    }

    /// The row to which the view, `height` rows high, is scrolled over
    /// `len` bytes for a selection that begins at `start`.
    pub fn scroll(&self, len: usize, start: usize, height: usize) -> (row: usize)
        requires
            len > 0,
        ensures
            row == scroll_row(len as int, self.width() as int, start as int, height as int),
    {
        let rows = self.rows(len) as u128;
        assert(rows * (start as u128) <= 0xffff_ffff_ffff_ffff * 0xffff_ffff_ffff_ffff)
            by (nonlinear_arith)
            requires
                rows <= 0xffff_ffff_ffff_ffff,
                start <= 0xffff_ffff_ffff_ffff,
        ;
        let share: u128 = rows * (start as u128) / (len as u128);
        assert(share <= start) by (nonlinear_arith)
            requires
                share == rows * start / (len as int),
                0 <= rows <= len,
                len > 0,
                start >= 0,
        ;
        let half = (height / 2) as u128;
        if share < half {
            0
        } else {
            (share - half) as usize
        }
    }
}

impl Default for HexState {
    /// Sixteen bytes in a row.
    fn default() -> (state: Self)
        ensures
            state.width() == 16,
    {
        HexState { columns: 16 }
    }
}

/// Length of the run of bytes other than 0 that `bytes` ends with.
pub open spec fn tail_run(bytes: Seq<u8>) -> nat
    decreases bytes.len(),
{
    if bytes.len() == 0 || bytes.last() == 0 {
        0
    } else {
        tail_run(bytes.drop_last()) + 1
    }
}

/// Length of the longest run of bytes other than 0 in `bytes`.
pub open spec fn longest_run(bytes: Seq<u8>) -> nat
    decreases bytes.len(),
{
    if bytes.len() == 0 {
        0
    } else if longest_run(bytes.drop_last()) >= tail_run(bytes) {
        longest_run(bytes.drop_last())
    } else {
        tail_run(bytes)
    }
}

/// Every byte of `bytes` is below 128.
pub open spec fn all_ascii(bytes: Seq<u8>) -> bool {
    forall|i: int| 0 <= i < bytes.len() ==> #[trigger] bytes[i] < 128
}

/// `bytes` are worth showing as text: all of them are below 128, and
/// four or more in a row are not 0.
pub open spec fn is_text(bytes: Seq<u8>) -> bool {
    all_ascii(bytes) && longest_run(bytes) >= 4
}

/// Whether `bytes` are worth showing as text.
pub fn looks_like_text(bytes: &[u8]) -> (text: bool)
    ensures
        text == is_text(bytes@),
{
    let mut ascii = true;
    let mut longest: usize = 0;
    let mut run: usize = 0;
    let mut i: usize = 0;
    while i < bytes.len()
        invariant
            i <= bytes.len(),
            ascii == all_ascii(bytes@.take(i as int)),
            longest == longest_run(bytes@.take(i as int)),
            run == tail_run(bytes@.take(i as int)),
            run <= i,
            longest <= i,
        decreases bytes.len() - i,
    {
        let ghost before = bytes@.take(i as int);
        let ghost upto = bytes@.take(i + 1);
        proof {
            assert(upto.drop_last() =~= before);
            assert(upto.last() == bytes@[i as int]);
        }
        let byte = bytes[i];
        if byte >= 128 {
            ascii = false;
        }
        if byte == 0 {
            run = 0;
        } else {
            run = run + 1;
        }
        if run > longest {
            longest = run;
        }
        proof {
            if all_ascii(upto) {
                assert forall|k: int| 0 <= k < before.len() implies #[trigger] before[k] < 128 by {
                    assert(upto[k] == before[k]);
                }
            }
            if all_ascii(before) && byte < 128 {
                assert forall|k: int| 0 <= k < upto.len() implies #[trigger] upto[k] < 128 by {
                    if k < i {
                        assert(upto[k] == before[k]);
                    }
                }
            }
        }
        i = i + 1;
    }
    proof {
        assert(bytes@.take(i as int) =~= bytes@);
    }
    ascii && longest >= 4
}

/// The number that `bytes` spell, least significant byte first.
pub open spec fn le_value(bytes: Seq<u8>) -> nat
    decreases bytes.len(),
{
    if bytes.len() == 0 {
        0
    } else {
        bytes[0] as nat + 256 * le_value(bytes.drop_first())
    }
}

/// The number that a read of four or of eight bytes spells, least
/// significant byte first; a read of another length is not shown as a
/// number.
pub fn number_of(bytes: &[u8]) -> (number: Option<u64>)
    ensures
        number is Some <==> bytes@.len() == 4 || bytes@.len() == 8,
        number is Some ==> number->0 == le_value(bytes@),
{
    let len = bytes.len();
    if len != 4 && len != 8 {
        return None;
    }
    let mut value: u64 = 0;
    let mut i: usize = len;
    proof {
        assert(bytes@.skip(len as int) =~= Seq::<u8>::empty());
    }
    while i > 0
        invariant
            i <= len == bytes@.len(),
            len <= 8,
            value == le_value(bytes@.skip(i as int)),
            value < crate::path::capacity((len - i) as nat),
        decreases i,
    {
        i = i - 1;
        proof {
            assert(bytes@.skip(i as int).drop_first() =~= bytes@.skip(i + 1));
            assert(bytes@.skip(i as int)[0] == bytes@[i as int]);
            crate::path::lemma_width_fits_word(0);
            reveal_with_fuel(crate::path::capacity, 10);
        }
        value = bytes[i] as u64 + 256 * value;
    }
    proof {
        assert(bytes@.skip(0) =~= bytes@);
    }
    Some(value)
}

/// The first `limit` of `bytes`, each as two hexadecimal digits, with a
/// space between one and the next.
pub open spec fn hex_line(bytes: Seq<u8>, limit: nat) -> Seq<char>
    decreases bytes.len(),
{
    if bytes.len() == 0 {
        Seq::empty()
    } else if bytes.len() > limit {
        hex_line(bytes.drop_last(), limit)
    } else if bytes.len() == 1 {
        hex_byte(bytes[0])
    } else {
        hex_line(bytes.drop_last(), limit) + seq![' '] + hex_byte(bytes.last())
    }
}

/// What is shown of the bytes of a read: the first `limit` of them in
/// hexadecimal, and three dots if there are more.
pub open spec fn hex_preview(bytes: Seq<u8>, limit: nat) -> Seq<char> {
    if bytes.len() > limit {
        hex_line(bytes, limit) + seq!['.', '.', '.']
    } else {
        hex_line(bytes, limit)
    }
}

/// What is shown of the bytes of a read.
pub fn preview(bytes: &[u8], limit: usize) -> (text: String)
    ensures
        text@ == hex_preview(bytes@, limit as nat),
{
    let mut text = String::new();
    let shown = if bytes.len() > limit {
        limit
    } else {
        bytes.len()
    };
    let mut i: usize = 0;
    while i < shown
        invariant
            i <= shown <= bytes.len(),
            shown <= limit,
            text@ == hex_line(bytes@.take(i as int), limit as nat),
        decreases shown - i,
    {
        proof {
            assert(bytes@.take(i + 1).drop_last() =~= bytes@.take(i as int));
            reveal_strlit(" ");
        }
        if i > 0 {
            text.append(" ");
        }
        push_hex_byte(&mut text, bytes[i]);
        proof {
            assert(text@ =~= hex_line(bytes@.take(i + 1), limit as nat));
        }
        i = i + 1;
    }
    proof {
        lemma_hex_line_cut(bytes@, shown as int, limit as nat);
        reveal_strlit("...");
    }
    if bytes.len() > limit {
        text.append("...");
        proof {
            assert(text@ =~= hex_preview(bytes@, limit as nat));
        }
    }
    text
}

/// Bytes beyond the limit add nothing to the line.
proof fn lemma_hex_line_cut(bytes: Seq<u8>, shown: int, limit: nat)
    requires
        0 <= shown <= bytes.len(),
        shown == if bytes.len() > limit {
            limit as int
        } else {
            bytes.len() as int
        },
    ensures
        hex_line(bytes, limit) == hex_line(bytes.take(shown), limit),
    decreases bytes.len(),
{
    if bytes.len() > limit {
        lemma_hex_line_cut(bytes.drop_last(), shown, limit);
        assert(bytes.drop_last().take(shown) =~= bytes.take(shown));
    } else {
        assert(bytes.take(shown) =~= bytes);
    }
}

/// The colour made from the hash of a name: its three low bytes as red,
/// green and blue.
pub fn rgb_of(hash: u64) -> (rgb: (u8, u8, u8))
    ensures
        rgb.0 == hash % 256,
        rgb.1 == hash / 0x100 % 256,
        rgb.2 == hash / 0x1_0000 % 256,
{
    ((hash % 256) as u8, (hash / 0x100 % 256) as u8, (hash / 0x1_0000 % 256) as u8)
}

} // verus!
