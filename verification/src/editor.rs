//! Editor text helpers: caret position conversions, line counting and the
//! status-bar statistics.
use vstd::prelude::*;
use crate::text::{chars_of, string_of, append, decimal, decimal_exec, is_ws, is_ws_char};

verus! {

// ─────────────────────────────────────────────────────────────────────────────
// Positions
// ─────────────────────────────────────────────────────────────────────────────

/// Number of occurrences of `c` in `s`.
pub open spec fn count_char(s: Seq<char>, c: char) -> nat
    decreases s.len(),
{
    if s.len() == 0 {
        0
    } else {
        count_char(s.drop_last(), c) + if s.last() == c {
            1nat
        } else {
            0nat
        }
    }
}

/// Characters after the last `\n` of `s` (all of `s` when it has none).
pub open spec fn column_of(s: Seq<char>) -> nat
    decreases s.len(),
{
    if s.len() == 0 {
        0
    } else if s.last() == '\n' {
        0
    } else {
        column_of(s.drop_last()) + 1
    }
}

/// The (line, column) of the caret placed after the first `i` characters.
pub open spec fn line_col_at(s: Seq<char>, i: int) -> (nat, nat) {
    (count_char(s.take(i), '\n'), column_of(s.take(i)))
}

/// Convert a character index to a 0-indexed (line, column) pair; an index past
/// the end is the end of the text.
pub open spec fn spec_char_index_to_line_col(s: Seq<char>, char_index: int) -> (nat, nat) {
    line_col_at(s, if char_index < s.len() { char_index } else { s.len() as int })
}

/// Index `i` is where `line_col_to_char_index` stops: the target position
/// itself, the line break that ends the target line, or the end of the text.
pub open spec fn stops_at(s: Seq<char>, line: nat, col: nat, i: int) -> bool {
    ||| line_col_at(s, i) == (line, col)
    ||| (line_col_at(s, i).0 == line && i < s.len() && s[i] == '\n')
    ||| i == s.len()
}

/// The first index at which the scan stops.
pub open spec fn spec_line_col_to_char_index(s: Seq<char>, line: nat, col: nat) -> int {
    choose|i: int|
        0 <= i <= s.len() && stops_at(s, line, col, i) && forall|j: int|
            0 <= j < i ==> !stops_at(s, line, col, j)
}

proof fn lemma_take_push(s: Seq<char>, i: int)
    requires
        0 <= i < s.len(),
    ensures
        s.take(i + 1).drop_last() == s.take(i),
        s.take(i + 1).last() == s[i],
{
    assert(s.take(i + 1).drop_last() =~= s.take(i));
}

/// Lines never decrease along the text; on one line the column grows, and a
/// line break moves every later position to a later line.
pub proof fn lemma_line_col_monotone(s: Seq<char>, j: int, i: int)
    requires
        0 <= j < i <= s.len(),
    ensures
        line_col_at(s, j).0 <= line_col_at(s, i).0,
        line_col_at(s, j).0 == line_col_at(s, i).0 ==> line_col_at(s, j).1 < line_col_at(s, i).1,
        s[j] == '\n' ==> line_col_at(s, j).0 < line_col_at(s, i).0,
    decreases i - j,
{
    lemma_take_push(s, i - 1);
    if j < i - 1 {
        lemma_line_col_monotone(s, j, i - 1);
    }
}

/// Convert a character index to (line, column), both 0-indexed.
pub fn char_index_to_line_col(text: &str, char_index: usize) -> (r: (usize, usize))
    ensures
        (r.0 as nat, r.1 as nat) == spec_char_index_to_line_col(text@, char_index as int),
{
    let v = chars_of(text);
    let mut line: usize = 0;
    let mut col: usize = 0;
    let mut i: usize = 0;
    while i < v.len() && i < char_index
        invariant
            i <= v@.len(),
            i <= char_index,
            v@ == text@,
            (line as nat, col as nat) == line_col_at(v@, i as int),
            line <= i,
            col <= i,
        decreases v@.len() - i,
    {
        proof {
            lemma_take_push(v@, i as int);
        }
        if v[i] == '\n' {
            line = line + 1;
            col = 0;
        } else {
            col = col + 1;
        }
        i = i + 1;
    }
    (line, col)
}

/// Convert (line, column) to a character index, both 0-indexed. A column past
/// the end of its line gives the end of that line; a line past the end of the
/// text gives the end of the text.
pub fn line_col_to_char_index(text: &str, line: usize, col: usize) -> (r: usize)
    ensures
        r as int == spec_line_col_to_char_index(text@, line as nat, col as nat),
{
    let v = chars_of(text);
    let mut cur_line: usize = 0;
    let mut cur_col: usize = 0;
    let mut i: usize = 0;
    let ghost s = text@;
    while i < v.len()
        invariant
            i <= v@.len(),
            v@ == s,
            s == text@,
            (cur_line as nat, cur_col as nat) == line_col_at(s, i as int),
            cur_line <= i,
            cur_col <= i,
            forall|j: int| 0 <= j < i ==> !stops_at(s, line as nat, col as nat, j),
        decreases v@.len() - i,
    {
        if cur_line == line && cur_col == col {
            proof {
                assert(stops_at(s, line as nat, col as nat, i as int));
                lemma_unique_stop(s, line as nat, col as nat, i as int);
            }
            return i;
        }
        proof {
            lemma_take_push(v@, i as int);
        }
        if v[i] == '\n' {
            if cur_line == line {
                proof {
                    assert(stops_at(s, line as nat, col as nat, i as int));
                    lemma_unique_stop(s, line as nat, col as nat, i as int);
                }
                return i;
            }
            cur_line = cur_line + 1;
            cur_col = 0;
        } else {
            cur_col = cur_col + 1;
        }
        i = i + 1;
    }
    proof {
        assert(stops_at(s, line as nat, col as nat, i as int));
        lemma_unique_stop(s, line as nat, col as nat, i as int);
    }
    i
}

proof fn lemma_unique_stop(s: Seq<char>, line: nat, col: nat, i: int)
    requires
        0 <= i <= s.len(),
        stops_at(s, line, col, i),
        forall|j: int| 0 <= j < i ==> !stops_at(s, line, col, j),
    ensures
        spec_line_col_to_char_index(s, line, col) == i,
{
    let k = spec_line_col_to_char_index(s, line, col);
    assert(0 <= k <= s.len() && stops_at(s, line, col, k) && forall|j: int|
        0 <= j < k ==> !stops_at(s, line, col, j));
    if k < i {
        assert(!stops_at(s, line, col, k));
    } else if k > i {
        assert(!stops_at(s, line, col, i));
    }
}

/// Converting an index to (line, column) and back gives the index again, for
/// every index up to the length of the text.
pub proof fn law_line_col_roundtrip(s: Seq<char>, i: int)
    requires
        0 <= i <= s.len(),
    ensures
        spec_line_col_to_char_index(
            s,
            spec_char_index_to_line_col(s, i).0,
            spec_char_index_to_line_col(s, i).1,
        ) == i,
{
    let (line, col) = line_col_at(s, i);
    assert(spec_char_index_to_line_col(s, i) == (line, col));
    assert(stops_at(s, line, col, i));
    assert forall|j: int| 0 <= j < i implies !stops_at(s, line, col, j) by {
        lemma_line_col_monotone(s, j, i);
    }
    lemma_unique_stop(s, line, col, i);
}

// ─────────────────────────────────────────────────────────────────────────────
// Line counting and text statistics
// ─────────────────────────────────────────────────────────────────────────────

/// Lines of the text as the editor numbers them: one more than the number of
/// line breaks (an empty text has one line, a trailing break opens a new one).
pub open spec fn spec_count_lines(s: Seq<char>) -> nat {
    count_char(s, '\n') + 1
}

pub proof fn lemma_count_char_le(s: Seq<char>, c: char)
    ensures
        count_char(s, c) <= s.len(),
    decreases s.len(),
{
    if s.len() > 0 {
        lemma_count_char_le(s.drop_last(), c);
    }
}

/// Count the lines of `text` (see [`spec_count_lines`]).
pub fn count_lines(text: &str) -> (r: usize)
    requires
        text@.len() < usize::MAX,
    ensures
        r as nat == spec_count_lines(text@),
{
    let v = chars_of(text);
    let mut n: usize = 0;
    let mut i: usize = 0;
    while i < v.len()
        invariant
            i <= v@.len(),
            v@ == text@,
            v@.len() < usize::MAX,
            n as nat == count_char(v@.take(i as int), '\n'),
        decreases v@.len() - i,
    {
        proof {
            lemma_take_push(v@, i as int);
            lemma_count_char_le(v@.take(i as int), '\n');
        }
        if v[i] == '\n' {
            n = n + 1;
        }
        i = i + 1;
    }
    proof {
        assert(v@.take(v@.len() as int) =~= v@);
        lemma_count_char_le(v@, '\n');
    }
    n + 1
}

/// Number of characters of `s` that are not whitespace.
pub open spec fn count_non_ws(s: Seq<char>) -> nat
    decreases s.len(),
{
    if s.len() == 0 {
        0
    } else {
        count_non_ws(s.drop_last()) + if is_ws(s.last()) {
            0nat
        } else {
            1nat
        }
    }
}

/// Number of words: maximal runs of non-whitespace characters, counted at
/// their first character.
pub open spec fn count_words(s: Seq<char>) -> nat
    decreases s.len(),
{
    if s.len() == 0 {
        0
    } else {
        let p = s.drop_last();
        count_words(p) + if !is_ws(s.last()) && (p.len() == 0 || is_ws(p.last())) {
            1nat
        } else {
            0nat
        }
    }
}

/// Paragraph scanner state after a prefix of the text: whether the current
/// paragraph was already counted, the run of line breaks just read (any other
/// character resets it), whether the current line has content, and the count.
pub struct ParaScan {
    pub in_paragraph: bool,
    pub consecutive_newlines: nat,
    pub line_has_content: bool,
    pub paragraphs: nat,
}

/// Effect of one character on the paragraph scanner: a line break closes a
/// line, counting a paragraph the first time a line with content closes, and
/// two adjacent line breaks end the paragraph.
pub open spec fn para_step(st: ParaScan, c: char) -> ParaScan {
    if is_ws(c) {
        if c == '\n' {
            let counts = st.line_has_content && !st.in_paragraph;
            let n = st.consecutive_newlines + 1;
            ParaScan {
                in_paragraph: if n >= 2 {
                    false
                } else {
                    st.in_paragraph || counts
                },
                consecutive_newlines: n,
                line_has_content: false,
                paragraphs: st.paragraphs + if counts {
                    1nat
                } else {
                    0nat
                },
            }
        } else {
            ParaScan { consecutive_newlines: 0, ..st }
        }
    } else {
        ParaScan { consecutive_newlines: 0, line_has_content: true, ..st }
    }
}

pub open spec fn para_scan(s: Seq<char>) -> ParaScan
    decreases s.len(),
{
    if s.len() == 0 {
        ParaScan { in_paragraph: false, consecutive_newlines: 0, line_has_content: false, paragraphs: 0 }
    } else {
        para_step(para_scan(s.drop_last()), s.last())
    }
}

proof fn lemma_para_scan(s: Seq<char>)
    ensures
        para_scan(s).paragraphs + (if para_scan(s).line_has_content && !para_scan(s).in_paragraph { 1nat } else { 0nat })
            <= count_words(s),
        para_scan(s).in_paragraph ==> para_scan(s).paragraphs >= 1,
        !para_scan(s).line_has_content ==> (s.len() == 0 || is_ws(s.last())),
        count_words(s) > 0 ==> (para_scan(s).paragraphs >= 1 || (para_scan(s).line_has_content
            && !para_scan(s).in_paragraph)),
    decreases s.len(),
{
    if s.len() > 0 {
        lemma_para_scan(s.drop_last());
    }
}

proof fn lemma_count_char_filter(s: Seq<char>, c: char)
    ensures
        count_char(s, c) == s.filter(|x: char| x == c).len(),
    decreases s.len(),
{
    reveal(Seq::filter);
    if s.len() > 0 {
        lemma_count_char_filter(s.drop_last(), c);
    }
}

/// The character count is the length of the text, and the line count is one
/// more than the number of line feeds in it.
pub proof fn law_character_and_line_counts(s: Seq<char>)
    requires
        s.len() < usize::MAX,
    ensures
        TextStats::of_text(s).characters == s.len(),
        TextStats::of_text(s).lines == s.filter(|x: char| x == '\n').len() + 1,
{
    lemma_count_char_filter(s, '\n');
    lemma_count_char_le(s, '\n');
}

proof fn lemma_words_split(a: Seq<char>, c: char, b: Seq<char>)
    requires
        is_ws(c),
    ensures
        count_words(a + seq![c] + b) == count_words(a) + count_words(b),
    decreases b.len(),
{
    if b.len() == 0 {
        assert(a + seq![c] + b =~= a.push(c));
        assert((a + seq![c] + b).drop_last() =~= a);
    } else {
        let b1 = b.drop_last();
        lemma_words_split(a, c, b1);
        let s = a + seq![c] + b;
        assert(s.drop_last() =~= a + seq![c] + b1);
        assert(s.last() == b.last());
        if b1.len() == 0 {
            assert(s.drop_last().last() == c);
        } else {
            assert(s.drop_last().last() == b1.last());
        }
    }
}

proof fn lemma_words_of_run(s: Seq<char>)
    requires
        forall|k: int| 0 <= k < s.len() ==> !is_ws(#[trigger] s[k]),
    ensures
        count_words(s) == if s.len() == 0 { 0nat } else { 1nat },
    decreases s.len(),
{
    if s.len() > 0 {
        let p = s.drop_last();
        assert forall|k: int| 0 <= k < p.len() implies !is_ws(#[trigger] p[k]) by {
            assert(p[k] == s[k]);
        }
        lemma_words_of_run(p);
        if p.len() > 0 {
            assert(p.last() == s[p.len() - 1]);
        }
        assert(s.last() == s[s.len() - 1]);
    }
}

proof fn lemma_words_of_blank(s: Seq<char>)
    requires
        forall|k: int| 0 <= k < s.len() ==> is_ws(#[trigger] s[k]),
    ensures
        count_words(s) == 0,
    decreases s.len(),
{
    if s.len() > 0 {
        let p = s.drop_last();
        assert forall|k: int| 0 <= k < p.len() implies is_ws(#[trigger] p[k]) by {
            assert(p[k] == s[k]);
        }
        lemma_words_of_blank(p);
        assert(s.last() == s[s.len() - 1]);
    }
}

/// Words are the maximal runs of non-whitespace characters: text that is all
/// whitespace has none, a run of non-whitespace characters is one word, and
/// cutting the text at any whitespace character adds the words of the two
/// sides.
pub proof fn law_word_count(a: Seq<char>, c: char, b: Seq<char>)
    ensures
        (forall|k: int| 0 <= k < a.len() ==> is_ws(#[trigger] a[k])) ==> count_words(a) == 0,
        (a.len() > 0 && forall|k: int| 0 <= k < a.len() ==> !is_ws(#[trigger] a[k])) ==> count_words(a) == 1,
        is_ws(c) ==> count_words(a + seq![c] + b) == count_words(a) + count_words(b),
{
    if forall|k: int| 0 <= k < a.len() ==> is_ws(#[trigger] a[k]) {
        lemma_words_of_blank(a);
    }
    if forall|k: int| 0 <= k < a.len() ==> !is_ws(#[trigger] a[k]) {
        lemma_words_of_run(a);
    }
    if is_ws(c) {
        lemma_words_split(a, c, b);
    }
}

proof fn lemma_non_ws_filter(s: Seq<char>)
    ensures
        count_non_ws(s) == s.filter(|c: char| !is_ws(c)).len(),
        count_non_ws(s) + s.filter(|c: char| is_ws(c)).len() == s.len(),
    decreases s.len(),
{
    reveal(Seq::filter);
    if s.len() > 0 {
        lemma_non_ws_filter(s.drop_last());
    }
}

/// The count without spaces leaves out every whitespace character, not only
/// the space and the line feed: it is the number of characters that are not
/// whitespace, and with the number that are it makes up the character count.
/// Tab, line feed, vertical tab, form feed, carriage return and space are
/// whitespace.
pub proof fn law_non_whitespace_count(s: Seq<char>)
    requires
        s.len() < usize::MAX,
    ensures
        TextStats::of_text(s).characters_no_spaces == s.filter(|c: char| !is_ws(c)).len(),
        TextStats::of_text(s).characters_no_spaces + s.filter(|c: char| is_ws(c)).len() == TextStats::of_text(s).characters,
        forall|c: char| c == '\t' || c == '\n' || c == '\u{b}' || c == '\u{c}' || c == '\r' || c == ' ' ==> is_ws(c),
{
    lemma_non_ws_filter(s);
}

/// Every paragraph holds a word of its own: there are never more paragraphs
/// than words, and there are none exactly when there are no words.
pub proof fn law_paragraphs_within_words(s: Seq<char>)
    ensures
        count_paragraphs(s) <= count_words(s),
        count_paragraphs(s) == 0 <==> count_words(s) == 0,
{
    lemma_para_scan(s);
}

/// Paragraphs: blocks of lines with content, separated by an empty line (two
/// adjacent line breaks); a final block counts even without a line break.
pub open spec fn count_paragraphs(s: Seq<char>) -> nat {
    let st = para_scan(s);
    st.paragraphs + if st.line_has_content && !st.in_paragraph {
        1nat
    } else {
        0nat
    }
}

/// Text statistics for a document.
#[derive(Debug, Clone, Copy, PartialEq, Eq, Structural)]
pub struct TextStats {
    /// Number of words (sequences of non-whitespace characters)
    pub words: usize,
    /// Number of characters including whitespace
    pub characters: usize,
    /// Number of characters excluding whitespace
    pub characters_no_spaces: usize,
    /// Number of lines (including empty lines)
    pub lines: usize,
    /// Number of paragraphs (non-empty text blocks separated by blank lines)
    pub paragraphs: usize,
}

impl Default for TextStats {
    fn default() -> (r: Self)
        ensures
            r == (TextStats { words: 0, characters: 0, characters_no_spaces: 0, lines: 0, paragraphs: 0 }),
    {
        TextStats { words: 0, characters: 0, characters_no_spaces: 0, lines: 0, paragraphs: 0 }
    }
}

proof fn lemma_counts_le(s: Seq<char>)
    ensures
        count_non_ws(s) <= s.len(),
        count_words(s) <= s.len(),
        para_scan(s).paragraphs <= s.len(),
        para_scan(s).consecutive_newlines <= s.len(),
    decreases s.len(),
{
    if s.len() > 0 {
        lemma_counts_le(s.drop_last());
    }
}

impl TextStats {
    /// The statistics of the text `s` (an empty text has one line).
    pub open spec fn of_text(s: Seq<char>) -> TextStats {
        TextStats {
            words: count_words(s) as usize,
            characters: s.len() as usize,
            characters_no_spaces: count_non_ws(s) as usize,
            lines: spec_count_lines(s) as usize,
            paragraphs: count_paragraphs(s) as usize,
        }
    }

    /// All counts zero.
    pub fn new() -> (r: Self)
        ensures
            r == (TextStats { words: 0, characters: 0, characters_no_spaces: 0, lines: 0, paragraphs: 0 }),
    {
        TextStats { words: 0, characters: 0, characters_no_spaces: 0, lines: 0, paragraphs: 0 }
    }

    /// Calculate statistics from the given text in a single pass.
    pub fn from_text(text: &str) -> (r: Self)
        requires
            text@.len() < usize::MAX,
        ensures
            r == Self::of_text(text@),
    {
        let v = chars_of(text);
        let lines = count_lines(text);
        let mut words: usize = 0;
        let mut characters: usize = 0;
        let mut no_spaces: usize = 0;
        let mut in_word = false;
        let mut in_paragraph = false;
        let mut consecutive_newlines: usize = 0;
        let mut line_has_content = false;
        let mut paragraphs: usize = 0;
        let mut i: usize = 0;
        while i < v.len()
            invariant
                i <= v@.len(),
                v@ == text@,
                v@.len() < usize::MAX,
                characters == i,
                words as nat == count_words(v@.take(i as int)),
                no_spaces as nat == count_non_ws(v@.take(i as int)),
                in_word == (i > 0 && !is_ws(v@[i - 1])),
                para_scan(v@.take(i as int)) == (ParaScan {
                    in_paragraph,
                    consecutive_newlines: consecutive_newlines as nat,
                    line_has_content,
                    paragraphs: paragraphs as nat,
                }),
            decreases v@.len() - i,
        {
            proof {
                lemma_take_push(v@, i as int);
                lemma_counts_le(v@.take(i as int));
            }
            let ch = v[i];
            characters = characters + 1;
            if is_ws_char(ch) {
                in_word = false;
                if ch == '\n' {
                    consecutive_newlines = consecutive_newlines + 1;
                    if line_has_content && !in_paragraph {
                        in_paragraph = true;
                        paragraphs = paragraphs + 1;
                    }
                    if consecutive_newlines >= 2 {
                        in_paragraph = false;
                    }
                    line_has_content = false;
                } else {
                    consecutive_newlines = 0;
                }
            } else {
                no_spaces = no_spaces + 1;
                consecutive_newlines = 0;
                line_has_content = true;
                if !in_word {
                    in_word = true;
                    words = words + 1;
                }
            }
            i = i + 1;
        }
        proof {
            assert(v@.take(v@.len() as int) =~= v@);
            lemma_counts_le(v@);
        }
        if line_has_content && !in_paragraph {
            paragraphs = paragraphs + 1;
        }
        TextStats { words, characters, characters_no_spaces: no_spaces, lines, paragraphs }
    }

    /// The status-bar summary "`W` words | `C` chars | `L` lines".
    pub open spec fn spec_format_compact(self) -> Seq<char> {
        decimal(self.words as nat) + " words | "@ + decimal(self.characters as nat) + " chars | "@
            + decimal(self.lines as nat) + " lines"@
    }

    /// Format the statistics for display in the status bar.
    pub fn format_compact(&self) -> (r: String)
        ensures
            r@ == self.spec_format_compact(),
    {
        let mut out = decimal_exec(self.words as u64);
        append(&mut out, &chars_of(" words | "));
        append(&mut out, &decimal_exec(self.characters as u64));
        append(&mut out, &chars_of(" chars | "));
        append(&mut out, &decimal_exec(self.lines as u64));
        append(&mut out, &chars_of(" lines"));
        string_of(&out)
    }
}

/// What one frame of the editor widget reports back.
#[derive(Debug, Clone, Copy, PartialEq, Eq, Structural)]
pub struct EditorOutput {
    /// Whether the content was modified.
    pub changed: bool,
}

/// Search matches to highlight in the editor.
#[derive(Debug, Clone)]
pub struct SearchHighlights {
    /// All matches as (start, end) byte positions.
    pub matches: Vec<(usize, usize)>,
    /// Index of the current match (highlighted distinctly).
    pub current_match: usize,
    /// Whether to scroll to the current match.
    pub scroll_to_match: bool,
}

impl Default for SearchHighlights {
    fn default() -> (r: Self)
        ensures
            r.matches@.len() == 0,
            r.current_match == 0,
            !r.scroll_to_match,
    {
        SearchHighlights { matches: Vec::new(), current_match: 0, scroll_to_match: false }
    }
}

} // verus!
