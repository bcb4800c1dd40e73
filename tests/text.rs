use game_of_life::address::{parse_address_line, parse_size_line, AddressLine};
use game_of_life::board::Board;

#[test]
fn render_draws_one_line_per_row() {
    let mut b = Board::new(2);
    b.set(0, 1, true);
    assert_eq!(b.render(), ".  ▣  \n.  .  \n");
    assert_eq!(Board::new(0).render(), "");
}

#[test]
fn render_leaves_board_unchanged() {
    let mut b = Board::new(3);
    b.set(2, 2, true);
    let first = b.render();
    assert_eq!(b.render(), first);
    assert!(b.get(2, 2));
}

#[test]
fn blank_or_minus_one_ends_input() {
    assert_eq!(parse_address_line(""), AddressLine::Done);
    assert_eq!(parse_address_line("  \n"), AddressLine::Done);
    assert_eq!(parse_address_line("-1"), AddressLine::Done);
    assert_eq!(parse_address_line(" -1\r\n"), AddressLine::Done);
}

#[test]
fn address_lines_are_read() {
    assert_eq!(parse_address_line("1, 2"), AddressLine::Address(1, 2));
    assert_eq!(parse_address_line(" 10 ,0\n"), AddressLine::Address(10, 0));
    assert_eq!(parse_address_line("-3,+4"), AddressLine::Address(-3, 4));
    assert_eq!(
        parse_address_line("2147483647, -2147483648"),
        AddressLine::Address(2147483647, -2147483648)
    );
}

#[test]
fn malformed_address_lines_are_unreadable() {
    for line in [
        "5", "a, b", "1,", ",2", "1, 2, 3", "1 2", "-1, x", "2147483648, 0", "+, 1", "1,-",
    ] {
        assert_eq!(parse_address_line(line), AddressLine::Unreadable, "{line}");
    }
}

#[test]
fn unicode_white_space_is_trimmed() {
    assert_eq!(parse_address_line("1,\u{3000}2"), AddressLine::Address(1, 2));
    assert_eq!(parse_address_line("\u{a0}3 ,4\u{2028}"), AddressLine::Address(3, 4));
    assert_eq!(parse_address_line("\u{85}-1\u{2003}"), AddressLine::Done);
    assert_eq!(parse_address_line("1,\u{200b}2"), AddressLine::Unreadable);
}

#[test]
fn size_lines_are_read() {
    assert_eq!(parse_size_line("5"), Some(5));
    assert_eq!(parse_size_line("  12\n"), Some(12));
    assert_eq!(parse_size_line("+7"), Some(7));
    assert_eq!(parse_size_line("0"), Some(0));
    assert_eq!(parse_size_line("\u{3000}9\u{a0}"), Some(9));
    assert_eq!(parse_size_line(&usize::MAX.to_string()), Some(usize::MAX));
}

#[test]
fn malformed_size_lines_are_refused() {
    for line in ["", "  ", "-1", "-0", "+", "3x", "1 2", "1,2", "18446744073709551616000"] {
        assert_eq!(parse_size_line(line), None, "{line}");
    }
}
