use ase_core::grid::parse_split_grid;

#[test]
fn split_grid_reads_width_by_height() {
    assert_eq!(parse_split_grid("16x16"), Ok(Some((16, 16))));
    assert_eq!(parse_split_grid(" 8 X 4 "), Ok(Some((8, 4))));
    assert_eq!(parse_split_grid("+3x2"), Ok(Some((3, 2))));
    assert_eq!(parse_split_grid("\u{3000}2x3\u{a0}"), Ok(Some((2, 3))));
    assert_eq!(parse_split_grid("4294967295x1"), Ok(Some((u32::MAX, 1))));
    assert_eq!(parse_split_grid("0x0"), Ok(Some((0, 0))));
}

#[test]
fn blank_split_grid_means_no_grid() {
    assert_eq!(parse_split_grid(""), Ok(None));
    assert_eq!(parse_split_grid(" \t\n"), Ok(None));
}

#[test]
fn malformed_split_grid_is_refused() {
    for s in ["16", "x16", "16x", "16x16x16", "-1x2", "1 6x2", "+x2", "4294967296x1", "ax2", "16×16"] {
        assert_eq!(parse_split_grid(s), Err(()), "{s:?}");
    }
}
