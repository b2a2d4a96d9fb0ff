use ferrite::editor::{char_index_to_line_col, count_lines, line_col_to_char_index};

#[test]
fn test_char_index_to_line_col_empty() {
    assert_eq!(char_index_to_line_col("", 0), (0, 0));
}

#[test]
fn test_char_index_to_line_col_single_line() {
    let text = "Hello, World!";
    assert_eq!(char_index_to_line_col(text, 0), (0, 0));
    assert_eq!(char_index_to_line_col(text, 5), (0, 5));
    assert_eq!(char_index_to_line_col(text, 13), (0, 13));
}

#[test]
fn test_char_index_to_line_col_multiline() {
    let text = "Hello\nWorld\n!";
    assert_eq!(char_index_to_line_col(text, 0), (0, 0)); // 'H'
    assert_eq!(char_index_to_line_col(text, 5), (0, 5)); // '\n'
    assert_eq!(char_index_to_line_col(text, 6), (1, 0)); // 'W'
    assert_eq!(char_index_to_line_col(text, 11), (1, 5)); // '\n'
    assert_eq!(char_index_to_line_col(text, 12), (2, 0)); // '!'
}

#[test]
fn test_line_col_to_char_index_empty() {
    assert_eq!(line_col_to_char_index("", 0, 0), 0);
}

#[test]
fn test_line_col_to_char_index_single_line() {
    let text = "Hello, World!";
    assert_eq!(line_col_to_char_index(text, 0, 0), 0);
    assert_eq!(line_col_to_char_index(text, 0, 5), 5);
    assert_eq!(line_col_to_char_index(text, 0, 13), 13);
}

#[test]
fn test_line_col_to_char_index_multiline() {
    let text = "Hello\nWorld\n!";
    assert_eq!(line_col_to_char_index(text, 0, 0), 0); // 'H'
    assert_eq!(line_col_to_char_index(text, 1, 0), 6); // 'W'
    assert_eq!(line_col_to_char_index(text, 2, 0), 12); // '!'
}

#[test]
fn test_line_col_to_char_index_out_of_bounds() {
    let text = "Hi\nBye";
    // Column beyond line length
    assert_eq!(line_col_to_char_index(text, 0, 10), 2); // end of first line
                                                        // Line beyond text
    assert_eq!(line_col_to_char_index(text, 5, 0), 6); // end of text
}

#[test]
fn test_roundtrip_conversion() {
    let text = "Line 1\nLine 2\nLine 3";

    // Test various positions
    for char_idx in [0, 3, 6, 7, 10, 13, 14, 17, 20] {
        if char_idx <= text.chars().count() {
            let (line, col) = char_index_to_line_col(text, char_idx);
            let back = line_col_to_char_index(text, line, col);
            assert_eq!(back, char_idx, "Roundtrip failed for index {}", char_idx);
        }
    }
}

#[test]
fn count_lines_counts_newlines_plus_one() {
    assert_eq!(count_lines(""), 1);
    assert_eq!(count_lines("a"), 1);
    assert_eq!(count_lines("a\nb\n"), 3);
}

#[test]
fn line_col_roundtrip_on_unicode_text() {
    let text = "héllo\nwörld\n\né";
    for idx in 0..=text.chars().count() {
        let (line, col) = char_index_to_line_col(text, idx);
        assert_eq!(line_col_to_char_index(text, line, col), idx);
    }
}
