use ferrite::table_guides::{
    detect_table_ranges, hash_table_lines, is_delimiter_row, is_table_line, pipe_char_columns,
    TableGuideCache, TableRange,
};

fn lines_from(source: &str) -> Vec<String> {
    source.lines().map(str::to_string).collect()
}

#[test]
fn is_table_line_recognizes_gfm_rows() {
    assert!(is_table_line("| A | B |"));
    assert!(is_table_line("| --- | --- |"));
    assert!(is_table_line("col1 | col2 | col3"));
    assert!(!is_table_line("regular text"));
    assert!(!is_table_line("> | not a table"));
    assert!(!is_table_line(""));
}

#[test]
fn is_delimiter_row_detects_alignment_markers() {
    assert!(is_delimiter_row("| :--- | :----: | ---: |"));
    assert!(is_delimiter_row("|---|---|"));
    assert!(!is_delimiter_row("| data | row |"));
}

#[test]
fn pipe_char_columns_finds_all_pipes() {
    assert_eq!(pipe_char_columns("| A | B |"), vec![0, 4, 8]);
    assert_eq!(pipe_char_columns("|ragged| row|"), vec![0, 7, 12]);
}

#[test]
fn detect_table_range_aligned_table() {
    let source = "intro\n| H1 | H2 |\n| --- | --- |\n| a | b |\n\nafter";
    let lines = lines_from(source);
    let total = source.lines().count();
    let ranges = detect_table_ranges(&lines, total, 0, total);
    assert_eq!(ranges.len(), 1);
    assert_eq!(ranges[0].start_line, 1);
    assert_eq!(ranges[0].end_line, 4);
}

#[test]
fn detect_table_range_ragged_table() {
    let source = "| long header | x |\n| --- | --- |\n| y | wide cell here |";
    let lines = lines_from(source);
    let total = source.lines().count();
    let ranges = detect_table_ranges(&lines, total, 0, total);
    assert_eq!(ranges.len(), 1);
    assert_eq!(ranges[0].start_line, 0);
    assert_eq!(ranges[0].end_line, 3);

    let header_cols = pipe_char_columns(&lines[0]);
    let body_cols = pipe_char_columns(&lines[2]);
    assert_ne!(header_cols, body_cols);
}

#[test]
fn detect_table_skips_fenced_code_block() {
    let source = "```\n| fake | table |\n| --- | --- |\n```\n| real | table |\n| --- | --- |";
    let lines = lines_from(source);
    let total = source.lines().count();
    let ranges = detect_table_ranges(&lines, total, 0, total);
    assert_eq!(ranges.len(), 1);
    assert_eq!(ranges[0].start_line, 4);
}

#[test]
fn detect_table_extends_backward_into_viewport() {
    let source = "| H | V |\n| - | - |\n| 1 | 2 |\n| 3 | 4 |";
    let lines = lines_from(source);
    let total = source.lines().count();
    // Viewport starts at line 2 but table begins at line 0.
    let ranges = detect_table_ranges(&lines, total, 2, total);
    assert_eq!(ranges.len(), 1);
    assert_eq!(ranges[0].start_line, 0);
}

#[test]
fn cache_invalidates_on_content_change() {
    let mut cache = TableGuideCache::default();
    let range = TableRange { start_line: 0, end_line: 2 };

    let v1 = lines_from("| A | B |\n| --- | --- |");
    let first = cache.get_or_compute(&range, &v1);
    assert!(first.is_some());
    assert_eq!(first.unwrap().pipe_columns, vec![0, 4, 8]);

    let v2 = lines_from("| AA | BB |\n| --- | --- |");
    let second = cache.get_or_compute(&range, &v2);
    assert!(second.is_some());
    assert_eq!(second.unwrap().pipe_columns, vec![0, 5, 10]);
    assert_eq!(cache.len(), 2);
}

#[test]
fn hash_table_lines_changes_when_edited() {
    let range = TableRange { start_line: 0, end_line: 2 };
    let before = lines_from("| a | b |\n| - | - |");
    let after = lines_from("| a | b |\n| - | c |");
    assert_ne!(hash_table_lines(&range, &before), hash_table_lines(&range, &after));
}

#[test]
fn hash_table_lines_is_blake3_of_the_lines() {
    let range = TableRange { start_line: 0, end_line: 2 };
    let lines = lines_from("| a | b |\n| - | - |");
    let expected = blake3::hash(b"| a | b |\n| - | - |\n");
    assert_eq!(hash_table_lines(&range, &lines), Some(*expected.as_bytes()));
    let missing = TableRange { start_line: 0, end_line: 5 };
    assert_eq!(hash_table_lines(&missing, &lines), None);
}

#[test]
fn cache_lookup_twice_gives_the_same_guides() {
    let mut cache = TableGuideCache::new();
    let range = TableRange { start_line: 0, end_line: 2 };
    let lines = lines_from("| A | B |\n| --- | --- |");
    let first = cache.get_or_compute(&range, &lines);
    let second = cache.get_or_compute(&range, &lines);
    assert_eq!(first, second);
    assert_eq!(cache.len(), 1);
    cache.clear();
    assert_eq!(cache.len(), 0);
}

#[test]
fn table_without_pipes_gets_no_guides() {
    let mut cache = TableGuideCache::new();
    let range = TableRange { start_line: 0, end_line: 1 };
    let lines = lines_from("no pipes here");
    assert!(cache.get_or_compute(&range, &lines).is_none());
    assert_eq!(cache.len(), 0);
}

#[test]
fn three_table_lines_without_delimiter_qualify() {
    let source = "a | b\nc | d\ne | f";
    let lines = lines_from(source);
    let ranges = detect_table_ranges(&lines, 3, 0, 3);
    assert_eq!(ranges.len(), 1);
    assert_eq!((ranges[0].start_line, ranges[0].end_line), (0, 3));
    let two = lines_from("a | b\nc | d");
    assert!(detect_table_ranges(&two, 2, 0, 2).is_empty());
}

#[test]
fn table_ending_before_window_is_not_reported() {
    let lines: Vec<String> = ["| a | b |", "| c | d |", "| e | f |", "text"].iter().map(|s| s.to_string()).collect();
    assert!(detect_table_ranges(&lines, 4, 3, 4).is_empty());
    let ranges = detect_table_ranges(&lines, 4, 2, 4);
    assert_eq!(ranges.len(), 1);
    assert_eq!((ranges[0].start_line, ranges[0].end_line), (0, 3));
}

#[test]
fn cached_guides_are_found_by_their_hash() {
    let mut cache = TableGuideCache::new();
    let range = TableRange { start_line: 0, end_line: 2 };
    let lines = lines_from("| A | B |\n| --- | --- |");
    let first = cache.get_or_insert_hashed(&range, &lines, &[7u8; 32]);
    assert_eq!(first.as_ref().map(|g| g.pipe_columns.clone()), Some(vec![0, 4, 8]));
    // Same key: the cached guides come back even for other lines.
    let edited = lines_from("| AAA | B |\n| --- | --- |");
    let again = cache.get_or_insert_hashed(&range, &edited, &[7u8; 32]);
    assert_eq!(again, first);
    assert_eq!(cache.len(), 1);
    // Another hash is another entry.
    let other = cache.get_or_insert_hashed(&range, &edited, &[8u8; 32]);
    assert_eq!(other.map(|g| g.pipe_columns), Some(vec![0, 6, 10]));
    assert_eq!(cache.len(), 2);
}

#[test]
fn lines_past_total_do_not_change_detection() {
    let all = lines_from("| a | b |\n| - | - |\n| c | d |\n| e | f |");
    let first_two: Vec<String> = all[..2].to_vec();
    assert_eq!(detect_table_ranges(&all, 2, 0, 2), detect_table_ranges(&first_two, 2, 0, 2));
    assert_eq!(detect_table_ranges(&all, 2, 0, 2), vec![TableRange { start_line: 0, end_line: 2 }]);
}
