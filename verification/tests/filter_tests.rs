use column_align::ansi_filter::AnsiFilter;
use column_align::csi_filter::{is_terminator, CsiFilterable};

fn bytes_of(s: &str) -> Vec<u8> {
    s.bytes().collect()
}

fn filter_csi_bytes(s: &str) -> Vec<u8> {
    let mut f = bytes_of(s).filter_csi();
    f.collect_remaining()
}

fn ansi_filter_bytes(s: &str) -> Vec<u8> {
    let mut f = bytes_of(s).ansi_filter();
    f.collect_remaining()
}

#[test]
fn ansi_filter_no_ansi_escape() {
    let visible: Vec<u8> = bytes_of("hello");
    let filtered: Vec<u8> = ansi_filter_bytes("hello");
    assert_eq!(visible, filtered);
}

#[test]
fn ansi_filter_single_ansi_escape() {
    let visible: Vec<u8> = bytes_of("hello");
    let filtered: Vec<u8> = ansi_filter_bytes("hel\x1b[32mlo");
    assert_eq!(visible, filtered);
}

#[test]
fn ansi_filter_adjacent_ansi_escapes() {
    let visible: Vec<u8> = bytes_of("ab");
    let filtered: Vec<u8> = ansi_filter_bytes("\x1b[32ma\x1b[m\x1b[31mb\x1b[m");
    assert_eq!(visible, filtered);
}

#[test]
fn ansi_filter_string_ends_in_the_middle_of_an_ansi_escape() {
    let visible: Vec<u8> = bytes_of("ab");
    let filtered: Vec<u8> = ansi_filter_bytes("ab\x1b[3");
    assert_eq!(visible, filtered);
}

#[test]
fn csi_filter_no_ansi_escape() {
    let visible: Vec<u8> = bytes_of("hello");
    let filtered: Vec<u8> = filter_csi_bytes("hello");
    assert_eq!(visible, filtered);
}

#[test]
fn csi_filter_single_ansi_escape() {
    let visible: Vec<u8> = bytes_of("hello");
    let filtered: Vec<u8> = filter_csi_bytes("hel\x1b[32mlo");
    assert_eq!(visible, filtered);
}

#[test]
fn csi_filter_adjacent_ansi_escapes() {
    let visible: Vec<u8> = bytes_of("ab");
    let filtered: Vec<u8> = filter_csi_bytes("\x1b[32ma\x1b[m\x1b[31mb\x1b[m");
    assert_eq!(visible, filtered);
}

#[test]
fn csi_filter_string_ends_in_the_middle_of_an_ansi_escape() {
    let visible: Vec<u8> = bytes_of("ab");
    let filtered: Vec<u8> = filter_csi_bytes("ab\x1b[3");
    assert_eq!(visible, filtered);
}

#[test]
fn string_contains_escape_but_not_a_valid_ansi_escape_sequence() {
    let visible: Vec<u8> = bytes_of("ab\x1b(3");
    let filtered: Vec<u8> = filter_csi_bytes("ab\x1b(3");
    assert_eq!(visible, filtered);
}

#[test]
fn csi_filter_output_never_longer_than_input() {
    for input in ["", "plain", "hel\x1b[32mlo", "ab\x1b[3", "ab\x1b(3", "\x1b", "\x1b["] {
        let filtered = filter_csi_bytes(input);
        assert!(filtered.len() <= input.len());
    }
}

#[test]
fn csi_filter_twice_equals_once_without_csi_sequences() {
    // The input holds a stray ESC but no `ESC [` pair, so one pass changes
    // nothing and a second pass sees the same bytes again.
    let once = filter_csi_bytes("ab\x1b(3cd");
    let mut again = once.clone().filter_csi();
    let twice = again.collect_remaining();
    assert_eq!(once, twice);
    assert_eq!(once, bytes_of("ab\x1b(3cd"));
}

#[test]
fn csi_filter_lone_escape_at_end_is_kept() {
    let filtered = filter_csi_bytes("ab\x1b");
    assert_eq!(filtered, bytes_of("ab\x1b"));
}

#[test]
fn csi_filter_terminator_range_bounds() {
    assert!(is_terminator(0x40));
    assert!(is_terminator(0x7e));
    assert!(is_terminator(b'm'));
    assert!(!is_terminator(0x3f));
    assert!(!is_terminator(0x7f));
    assert!(!is_terminator(b'3'));
}

#[test]
fn csi_filter_terminates_on_any_terminator_byte() {
    // `H` (0x48) ends a CSI sequence for the precise recognizer.
    let filtered = filter_csi_bytes("a\x1b[2;7Hb");
    assert_eq!(filtered, bytes_of("ab"));
}

#[test]
fn csi_filter_yields_bytes_one_at_a_time() {
    let mut f = bytes_of("a\x1b[32mb").filter_csi();
    assert_eq!(f.next(), Some(b'a'));
    assert_eq!(f.next(), Some(b'b'));
    assert_eq!(f.next(), None);
    assert_eq!(f.next(), None);
}

#[test]
fn csi_filter_drains_lookahead_in_order() {
    let mut f = bytes_of("\x1b(x").filter_csi();
    assert_eq!(f.next(), Some(0x1b));
    assert_eq!(f.next(), Some(b'('));
    assert_eq!(f.next(), Some(b'x'));
    assert_eq!(f.next(), None);
}

#[test]
fn csi_filter_buffered_successor_is_not_reexamined() {
    // The byte after an ESC is pulled as lookahead and emitted as it is once
    // the pair is found not to open a CSI sequence — even when that byte is
    // itself an ESC. The `[` after it is then read as a plain byte, so
    // nothing here is discarded.
    let filtered = filter_csi_bytes("\x1b\x1b[ma");
    assert_eq!(filtered, bytes_of("\x1b\x1b[ma"));
}

#[test]
fn ansi_filter_strips_from_escape_to_m_even_without_bracket() {
    // The simplified stripper discards from any ESC byte to the first `m`,
    // where the precise recognizer would keep these bytes.
    let filtered = ansi_filter_bytes("ab\x1b(3m)cd");
    assert_eq!(filtered, bytes_of("ab)cd"));
}
