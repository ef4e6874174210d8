use ser_hex::view::{
    byte_style, classify_cell, dominant, looks_like_text, number_of, preview, rgb_of, ByteStyle,
    ByteType, CellKind, Grid, HexState,
};

#[test]
fn a_byte_is_shown_by_its_kind() {
    assert_eq!(
        byte_style(None, 0, b'A'),
        ByteStyle { byte_type: ByteType::Ascii, symbol: 'A', highlight: false }
    );
    assert_eq!(
        byte_style(None, 0, 0),
        ByteStyle { byte_type: ByteType::Null, symbol: '.', highlight: false }
    );
    assert_eq!(
        byte_style(None, 0, b' '),
        ByteStyle { byte_type: ByteType::Other, symbol: '.', highlight: false }
    );
    assert_eq!(byte_style(None, 0, 0x7f).byte_type, ByteType::Other);
    assert_eq!(byte_style(None, 0, 0x7e).symbol, '~');
    assert_eq!(byte_style(None, 0, 0x21).symbol, '!');
    assert_eq!(byte_style(None, 0, 0xff).byte_type, ByteType::Other);
    for byte in 0..=255u8 {
        let style = byte_style(None, 0, byte);
        assert_eq!(style.byte_type == ByteType::Ascii, byte.is_ascii_graphic());
    }
}

#[test]
fn a_byte_is_highlighted_inside_the_selected_range() {
    assert!(!byte_style(Some(2..4), 1, 0).highlight);
    assert!(byte_style(Some(2..4), 2, 0).highlight);
    assert!(byte_style(Some(2..4), 3, 0).highlight);
    assert!(!byte_style(Some(2..4), 4, 0).highlight);
    assert!(!byte_style(Some(4..2), 3, 0).highlight);
}

#[test]
fn kinds_are_ordered_null_other_ascii() {
    assert!(ByteType::Null < ByteType::Other && ByteType::Other < ByteType::Ascii);
    assert_eq!(ByteType::Null.order(), 0);
    assert_eq!(ByteType::Other.order(), 1);
    assert_eq!(ByteType::Ascii.order(), 2);
    let kinds = [ByteType::Null, ByteType::Other, ByteType::Ascii];
    for a in kinds {
        for b in kinds {
            assert_eq!(a.lesser(b), a.min(b));
        }
    }
}

#[test]
fn the_most_frequent_kind_represents_the_bytes() {
    assert_eq!(dominant(&[]), None);
    assert_eq!(dominant(&[0, 0, b'a']), Some(ByteType::Null));
    assert_eq!(dominant(&[1, 2, b'a', 0]), Some(ByteType::Other));
    assert_eq!(dominant(&[b'a', b'b', 1, 0]), Some(ByteType::Ascii));
}

#[test]
fn of_equally_frequent_kinds_the_greatest_represents() {
    assert_eq!(dominant(&[0, 1]), Some(ByteType::Other));
    assert_eq!(dominant(&[0, b'a']), Some(ByteType::Ascii));
    assert_eq!(dominant(&[1, b'a']), Some(ByteType::Ascii));
    assert_eq!(dominant(&[0, 1, b'a']), Some(ByteType::Ascii));
    assert_eq!(dominant(&[0, 0, 1, 1, b'a']), Some(ByteType::Other));
}

#[test]
fn the_grid_leaves_the_margin_free() {
    assert_eq!(Grid::for_area(10, 5), Some(Grid { px_width: 7, px_height: 7 }));
    assert_eq!(Grid::for_area(3, 2), Some(Grid { px_width: 0, px_height: 1 }));
    assert_eq!(Grid::for_area(2, 5), None);
    assert_eq!(Grid::for_area(10, 1), None);
    assert_eq!(
        Grid::for_area(u16::MAX, u16::MAX),
        Some(Grid { px_width: 65532, px_height: 131067 })
    );
}

#[test]
fn cells_divide_the_data_among_them() {
    let grid = Grid { px_width: 7, px_height: 7 };
    let pixels = 1 + 7 * 8;
    assert_eq!(grid.cell_bounds(0, 0, 570), (0, 10));
    assert_eq!(grid.cell_bounds(1, 0, 570), (10, 20));
    assert_eq!(grid.cell_bounds(3, 2, 570), (170, 180));
    assert_eq!(grid.cell_bounds(7, 7, 570), (560, 570));
    assert_eq!(grid.cell_bounds(0, 0, 100), (0, 2));
    assert_eq!(grid.cell_bounds(1, 0, 100), (1, 4));
    assert_eq!(grid.cell_bounds(5, 3, 0), (0, 0));
    for y in 0..=7usize {
        for x in 0..=7usize {
            let index = x + y * 7;
            let (start, end) = grid.cell_bounds(x, y, 1000);
            assert_eq!(start, index * 1000 / pixels);
            assert_eq!(end, ((index + 1) * 1000).div_ceil(pixels));
        }
    }
    let wide = Grid { px_width: 65532, px_height: 131067 };
    assert_eq!(wide.cell_bounds(65532, 131067, usize::MAX).1, usize::MAX);
}

#[test]
fn a_cell_shows_the_highlight_before_the_kind() {
    let data = [0, 0, b'a', b'b', b'c', 1];
    assert_eq!(classify_cell(&data, 0, 3, None), CellKind::Kind(ByteType::Null));
    assert_eq!(classify_cell(&data, 2, 6, None), CellKind::Kind(ByteType::Ascii));
    assert_eq!(classify_cell(&data, 5, 6, None), CellKind::Kind(ByteType::Other));
    assert_eq!(classify_cell(&data, 3, 3, None), CellKind::Empty);
    assert_eq!(classify_cell(&data, 3, 3, Some(0..6)), CellKind::Empty);
    assert_eq!(classify_cell(&data, 0, 3, Some(2..3)), CellKind::Highlight);
    assert_eq!(classify_cell(&data, 0, 3, Some(3..4)), CellKind::Kind(ByteType::Null));
    assert_eq!(classify_cell(&data, 0, 3, Some(2..2)), CellKind::Kind(ByteType::Null));
    assert_eq!(classify_cell(&data, 2, 4, Some(0..100)), CellKind::Highlight);
}

#[test]
fn columns_do_not_go_below_one() {
    let mut state = HexState::default();
    assert_eq!(state.columns(), 16);
    assert_eq!(state.desired_width(), 77);
    assert!(state.inc_columns());
    assert_eq!(state.columns(), 17);
    for expected in (1..17).rev() {
        assert!(state.dec_columns());
        assert_eq!(state.columns(), expected);
    }
    assert!(!state.dec_columns());
    assert_eq!(state.columns(), 1);
    assert_eq!(state.desired_width(), 17);
}

#[test]
fn the_view_scrolls_to_half_a_screen_above_the_selection() {
    let state = HexState::default();
    assert_eq!(state.rows(0), 0);
    assert_eq!(state.rows(1), 1);
    assert_eq!(state.rows(16), 1);
    assert_eq!(state.rows(17), 2);
    assert_eq!(state.rows(1600), 100);
    assert_eq!(state.scroll(1600, 800, 20), 40);
    assert_eq!(state.scroll(1600, 0, 20), 0);
    assert_eq!(state.scroll(1600, 100, 20), 0);
    assert_eq!(state.scroll(1600, 1599, 21), 89);
    assert_eq!(state.scroll(1000, 999, 0), 62);
}

#[test]
fn four_bytes_in_a_row_that_are_not_zero_make_text() {
    assert!(looks_like_text(b"abcd"));
    assert!(looks_like_text(b"ab\0abcd\0"));
    assert!(looks_like_text(&[1, 2, 3, 4]));
    assert!(!looks_like_text(b"abc"));
    assert!(!looks_like_text(b"abc\0abc\0abc"));
    assert!(!looks_like_text(b""));
    assert!(!looks_like_text(&[b'a', b'b', b'c', b'd', 0x80]));
    assert!(!looks_like_text(&[0, 0, 0, 0]));
}

#[test]
fn reads_of_four_and_eight_bytes_are_numbers() {
    assert_eq!(number_of(&[1, 0, 0, 0]), Some(1));
    assert_eq!(number_of(&[0x78, 0x56, 0x34, 0x12]), Some(0x12345678));
    assert_eq!(
        number_of(&[0x78, 0x56, 0x34, 0x12]),
        Some(u32::from_le_bytes([0x78, 0x56, 0x34, 0x12]) as u64)
    );
    assert_eq!(
        number_of(&[1, 2, 3, 4, 5, 6, 7, 8]),
        Some(u64::from_le_bytes([1, 2, 3, 4, 5, 6, 7, 8]))
    );
    assert_eq!(number_of(&[0xff; 8]), Some(u64::MAX));
    assert_eq!(number_of(&[]), None);
    assert_eq!(number_of(&[1, 2, 3]), None);
    assert_eq!(number_of(&[1, 2, 3, 4, 5]), None);
}

#[test]
fn the_bytes_of_a_read_are_shown_in_hexadecimal() {
    assert_eq!(preview(&[], 100), "");
    assert_eq!(preview(&[0x0a], 100), "0A");
    assert_eq!(preview(&[0x00, 0xff, 0x1b], 100), "00 FF 1B");
    assert_eq!(preview(&[1, 2, 3], 3), "01 02 03");
    assert_eq!(preview(&[1, 2, 3], 2), "01 02...");
    assert_eq!(preview(&[1, 2, 3], 0), "...");
    let long = vec![0xab; 150];
    let shown = preview(&long, 100);
    assert_eq!(shown.len(), 100 * 3 - 1 + 3);
    assert!(shown.ends_with("AB..."));
}

#[test]
fn the_colour_of_a_name_is_the_low_bytes_of_its_hash() {
    assert_eq!(rgb_of(0), (0, 0, 0));
    assert_eq!(rgb_of(0x1122_3344_5566_7788), (0x88, 0x77, 0x66));
    let hash = 0xdead_beef_u64;
    assert_eq!(rgb_of(hash), (hash as u8, (hash >> 8) as u8, (hash >> 16) as u8));
    assert_eq!(rgb_of(u64::MAX), (255, 255, 255));
}
