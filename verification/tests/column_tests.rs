use column_align::columns::{
    align_columns, deduce_column_widths, maximum, split_fields, split_lines, visible_width,
    write_output,
};

fn bytes_of(s: &str) -> Vec<u8> {
    s.bytes().collect()
}

#[test]
fn visible_width_counts_bytes_after_filtering() {
    assert_eq!(visible_width(&bytes_of("hello")), 5);
    assert_eq!(visible_width(&bytes_of("hel\x1b[32mlo")), 5);
    assert_eq!(visible_width(&bytes_of("")), 0);
    assert_eq!(visible_width(&bytes_of("ab\x1b(3")), 5);
    assert_eq!(visible_width(&bytes_of("ab\x1b[3")), 2);
}

#[test]
fn maximum_grows_and_takes_pointwise_maxima() {
    let mut maximums: Vec<usize> = vec![2, 5];
    maximum(&mut maximums, &vec![7, 1, 4]);
    assert_eq!(maximums, vec![7, 5, 4]);
    maximum(&mut maximums, &vec![9]);
    assert_eq!(maximums, vec![9, 5, 4]);
    maximum(&mut maximums, &vec![]);
    assert_eq!(maximums, vec![9, 5, 4]);
}

#[test]
fn split_lines_drops_line_breaks_and_final_empty_line() {
    let empty: Vec<Vec<u8>> = vec![];
    assert_eq!(split_lines(&bytes_of("")), empty);
    assert_eq!(split_lines(&bytes_of("a\nb")), vec![bytes_of("a"), bytes_of("b")]);
    assert_eq!(split_lines(&bytes_of("a\nb\n")), vec![bytes_of("a"), bytes_of("b")]);
    assert_eq!(split_lines(&bytes_of("a\r\nb\n")), vec![bytes_of("a"), bytes_of("b")]);
    assert_eq!(split_lines(&bytes_of("\n")), vec![bytes_of("")]);
    assert_eq!(split_lines(&bytes_of("a\r")), vec![bytes_of("a\r")]);
}

#[test]
fn split_fields_on_delimiter() {
    assert_eq!(
        split_fields(&bytes_of("a-bb"), &bytes_of("-")),
        vec![bytes_of("a"), bytes_of("bb")]
    );
    assert_eq!(split_fields(&bytes_of("abc"), &bytes_of("-")), vec![bytes_of("abc")]);
    assert_eq!(
        split_fields(&bytes_of("a--b"), &bytes_of("-")),
        vec![bytes_of("a"), bytes_of(""), bytes_of("b")]
    );
    assert_eq!(
        split_fields(&bytes_of("x::y::z"), &bytes_of("::")),
        vec![bytes_of("x"), bytes_of("y"), bytes_of("z")]
    );
}

#[test]
fn column_alignment_pads_all_but_last_field() {
    // Column 0's target width is 3 (the visible length of "ccc"), column 1's
    // is 2; the first field of line 1 is padded to 3 + 1 total columns, while
    // the last field of each line stays unpadded.
    let buffer = bytes_of("a-bb\nccc-d");
    let splitter = bytes_of("-");
    let widths = deduce_column_widths(&buffer, &splitter);
    assert_eq!(widths, vec![3, 2]);
    let out = write_output(&buffer, &splitter, &widths);
    assert_eq!(out, bytes_of("a   bb\nccc d\n"));
}

#[test]
fn column_alignment_ignores_escape_bytes_in_widths() {
    // The colored field occupies one visible column, so its raw bytes are
    // followed by the same padding a bare "a" would get.
    let buffer = bytes_of("\x1b[32ma\x1b[0m-bb\nccc-d");
    let splitter = bytes_of("-");
    let out = align_columns(&buffer, &splitter);
    assert_eq!(out, bytes_of("\x1b[32ma\x1b[0m   bb\nccc d\n"));
}

#[test]
fn column_alignment_of_empty_input_is_empty() {
    let out = align_columns(&bytes_of(""), &bytes_of("-"));
    assert_eq!(out, bytes_of(""));
}

#[test]
fn column_alignment_single_field_lines_are_unpadded() {
    let out = align_columns(&bytes_of("xyz\nq"), &bytes_of("-"));
    assert_eq!(out, bytes_of("xyz\nq\n"));
}

#[test]
fn column_alignment_trailing_newline_changes_nothing() {
    let a = align_columns(&bytes_of("a-bb\nccc-d"), &bytes_of("-"));
    let b = align_columns(&bytes_of("a-bb\nccc-d\n"), &bytes_of("-"));
    assert_eq!(a, b);
}
