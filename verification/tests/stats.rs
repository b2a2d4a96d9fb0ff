use ferrite::editor::TextStats;

#[test]
fn test_stats_empty_text() {
    let stats = TextStats::from_text("");
    assert_eq!(stats.words, 0);
    assert_eq!(stats.characters, 0);
    assert_eq!(stats.characters_no_spaces, 0);
    assert_eq!(stats.lines, 1);
    assert_eq!(stats.paragraphs, 0);
}

#[test]
fn test_stats_single_word() {
    let stats = TextStats::from_text("Hello");
    assert_eq!(stats.words, 1);
    assert_eq!(stats.characters, 5);
    assert_eq!(stats.characters_no_spaces, 5);
    assert_eq!(stats.lines, 1);
    assert_eq!(stats.paragraphs, 1);
}

#[test]
fn test_stats_simple_sentence() {
    let stats = TextStats::from_text("Hello, World!");
    assert_eq!(stats.words, 2);
    assert_eq!(stats.characters, 13);
    assert_eq!(stats.characters_no_spaces, 12);
    assert_eq!(stats.lines, 1);
    assert_eq!(stats.paragraphs, 1);
}

#[test]
fn test_stats_multiple_lines() {
    let stats = TextStats::from_text("Line one\nLine two\nLine three");
    assert_eq!(stats.words, 6);
    assert_eq!(stats.lines, 3);
    assert_eq!(stats.paragraphs, 1); // Single paragraph (no blank lines)
}

#[test]
fn test_stats_multiple_paragraphs() {
    let stats = TextStats::from_text("First paragraph.\n\nSecond paragraph.");
    assert_eq!(stats.words, 4);
    assert_eq!(stats.paragraphs, 2);
}

#[test]
fn test_stats_multiple_paragraphs_complex() {
    let text =
        "Paragraph one here.\n\nParagraph two.\nStill paragraph two.\n\nParagraph three.";
    let stats = TextStats::from_text(text);
    assert_eq!(stats.paragraphs, 3);
}

#[test]
fn test_stats_trailing_newline() {
    let stats = TextStats::from_text("Hello\n");
    assert_eq!(stats.lines, 2);
    assert_eq!(stats.words, 1);
    assert_eq!(stats.paragraphs, 1);
}

#[test]
fn test_stats_only_whitespace() {
    let stats = TextStats::from_text("   \n\n   ");
    assert_eq!(stats.words, 0);
    assert_eq!(stats.characters, 8); // 3 spaces + 2 newlines + 3 spaces = 8
    assert_eq!(stats.characters_no_spaces, 0);
    assert_eq!(stats.paragraphs, 0);
}

#[test]
fn test_stats_unicode() {
    // "Привет мир! 你好世界" = "Hello world! 你好世界"
    // Words: "Привет", "мир!", "你好世界" = 3 words (Chinese has no spaces)
    let stats = TextStats::from_text("Привет мир! 你好世界");
    assert_eq!(stats.words, 3);
    assert_eq!(stats.characters, 16);
    assert_eq!(stats.characters_no_spaces, 14);
}

#[test]
fn test_stats_mixed_whitespace() {
    let stats = TextStats::from_text("word1  word2\t\tword3");
    assert_eq!(stats.words, 3);
}

#[test]
fn test_stats_format_compact() {
    let stats = TextStats {
        words: 150,
        characters: 892,
        characters_no_spaces: 743,
        lines: 25,
        paragraphs: 5,
    };
    assert_eq!(stats.format_compact(), "150 words | 892 chars | 25 lines");
}

// Default and Clone Tests

#[test]
fn test_stats_default() {
    let stats = TextStats::default();
    assert_eq!(stats.words, 0);
    assert_eq!(stats.characters, 0);
    assert_eq!(stats.characters_no_spaces, 0);
    assert_eq!(stats.lines, 0);
    assert_eq!(stats.paragraphs, 0);
}

#[test]
fn test_stats_clone() {
    let stats = TextStats::from_text("Hello World");
    let cloned = stats.clone();
    assert_eq!(stats, cloned);
}

#[test]
fn test_stats_copy() {
    let stats = TextStats::from_text("Hello World");
    let copied = stats;
    assert_eq!(stats.words, copied.words);
}

// Edge Case Tests

#[test]
fn test_stats_only_newlines() {
    let stats = TextStats::from_text("\n\n\n");
    assert_eq!(stats.lines, 4);
    assert_eq!(stats.words, 0);
    assert_eq!(stats.paragraphs, 0);
}

#[test]
fn test_stats_single_character() {
    let stats = TextStats::from_text("a");
    assert_eq!(stats.words, 1);
    assert_eq!(stats.characters, 1);
    assert_eq!(stats.lines, 1);
    assert_eq!(stats.paragraphs, 1);
}

#[test]
fn test_stats_markdown_document() {
    let markdown = "# Heading\n\nThis is a paragraph with **bold** text.\n\n- Item 1\n- Item 2\n\nAnother paragraph.";
    let stats = TextStats::from_text(markdown);
    assert!(stats.words > 0);
    assert!(stats.paragraphs > 0);
    assert!(stats.lines > 0);
}

#[test]
fn test_stats_real_world_text() {
    let text = r#"# My Document

This is the first paragraph. It contains multiple sentences.
Each sentence adds to the word count.

## Section Two

Here's another paragraph with some code: `let x = 42;`

And a final thought."#;

    let stats = TextStats::from_text(text);
    assert!(stats.words > 20);
    // Paragraphs: "# My Document", "This is the first...", "## Section Two",
    // "Here's another...", "And a final thought." = 5
    assert_eq!(stats.paragraphs, 5);
}

#[test]
fn paragraphs_never_outnumber_words() {
    let s = TextStats::from_text("one\n\ntwo three\n\n\nfour");
    assert_eq!((s.words, s.paragraphs), (4, 3));
    let blank = TextStats::from_text("  \n\n \t\n");
    assert_eq!((blank.words, blank.paragraphs), (0, 0));
}
