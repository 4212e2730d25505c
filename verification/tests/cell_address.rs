use acord::cells::{display_addr, parse_cell_address};

#[test]
fn cell_address_parses_A1() {
    assert_eq!(parse_cell_address("A1"), Some((0, 0)));
    assert_eq!(parse_cell_address("a1"), Some((0, 0)));
    assert_eq!(parse_cell_address("B3"), Some((1, 2)));
    assert_eq!(parse_cell_address("Z99"), Some((25, 98)));
}

#[test]
fn cell_address_parses_multi_letter_cols() {
    assert_eq!(parse_cell_address("AA1"), Some((26, 0)));
    assert_eq!(parse_cell_address("AB1"), Some((27, 0)));
    assert_eq!(parse_cell_address("BA1"), Some((52, 0)));
}

#[test]
fn cell_address_rejects_malformed() {
    assert_eq!(parse_cell_address(""), None);
    assert_eq!(parse_cell_address("1A"), None);
    assert_eq!(parse_cell_address("A"), None);
    assert_eq!(parse_cell_address("1"), None);
    assert_eq!(parse_cell_address("A0"), None);
    assert_eq!(parse_cell_address("A1B"), None);
}

#[test]
fn display_addr_roundtrip() {
    for col in 0..60u32 {
        for row in 0..30u32 {
            let s = display_addr(col, row);
            assert_eq!(parse_cell_address(&s), Some((col, row)));
        }
    }
}

#[test]
fn canonical_addresses_are_written_back_whole() {
    for s in ["A1", "Z9", "AA10", "ZZ1", "AAA1", "XFD1048576", "B12"] {
        let (col, row) = parse_cell_address(s).unwrap();
        assert_eq!(display_addr(col, row), s);
    }
}
