use jigsaw::proj::derived_state::RowLocation;

/// Helper constructor for [`RowLocation`]s
fn rl(frag: usize, row: usize) -> RowLocation {
    RowLocation { frag, row }
}

#[test]
fn row_loc_ord() {
    assert!(rl(0, 0) < rl(1, 0));
    assert!(rl(0, 1) < rl(1, 0));
    assert!(rl(0, 1) < rl(0, 3));

    assert!(rl(2, 1) > rl(1, 3));
    assert!(rl(1, 0) > rl(0, 100));
}
