//! GFM table detection for the raw editor's column guides.
//!
//! Finds markdown table blocks among the lines of a buffer, outside fenced code
//! blocks, and caches the pipe columns of each table keyed by its first line and
//! a BLAKE3 hash of its content.
use vstd::prelude::*;
use crate::text::{chars_of, trim, trim_of, starts_with, starts_with_exec, find_char, find_char_exec, split, split_char};

verus! {

// ─────────────────────────────────────────────────────────────────────────────
// Line classification
// ─────────────────────────────────────────────────────────────────────────────

/// A line that looks like a GFM table row: after trimming it is non-empty and
/// either starts with a pipe and holds at least two, or holds a pipe anywhere
/// without being a block quote.
pub open spec fn spec_is_table_line(line: Seq<char>) -> bool {
    let t = trim(line);
    if t.len() == 0 {
        false
    } else if t[0] == '|' {
        crate::editor::count_char(t, '|') >= 2
    } else {
        find_char(t, '|') is Some && t[0] != '>'
    }
}

/// Characters allowed in a delimiter cell.
pub open spec fn is_delimiter_char(c: char) -> bool {
    c == '-' || c == ':' || c == ' '
}

/// A delimiter row (`|---|:--:|`): a table line whose non-empty trimmed cells
/// consist only of dashes, colons and spaces.
pub open spec fn spec_is_delimiter_row(line: Seq<char>) -> bool {
    &&& spec_is_table_line(line)
    &&& forall|k: int, j: int|
        0 <= k < split(line, '|').len() && 0 <= j < trim(split(line, '|')[k]).len()
            ==> is_delimiter_char(#[trigger] trim(split(line, '|')[k])[j])
}

/// Character indices of every pipe in `line`, in increasing order.
pub open spec fn spec_pipe_columns(line: Seq<char>) -> Seq<usize>
    decreases line.len(),
{
    if line.len() == 0 {
        seq![]
    } else {
        let p = spec_pipe_columns(line.drop_last());
        if line.last() == '|' {
            p.push((line.len() - 1) as usize)
        } else {
            p
        }
    }
}

fn count_char_exec(v: &[char], c: char) -> (r: usize)
    ensures
        r as nat == crate::editor::count_char(v@, c),
{
    let mut n: usize = 0;
    let mut i: usize = 0;
    while i < v.len()
        invariant
            i <= v@.len(),
            n as nat == crate::editor::count_char(v@.take(i as int), c),
            n <= i,
        decreases v@.len() - i,
    {
        assert(v@.take(i + 1).drop_last() =~= v@.take(i as int));
        if v[i] == c {
            n = n + 1;
        }
        i = i + 1;
    }
    assert(v@.take(v@.len() as int) =~= v@);
    n
}

fn is_table_chars(line: &[char]) -> (r: bool)
    ensures
        r == spec_is_table_line(line@),
{
    let t = trim_of(line);
    if t.len() == 0 {
        return false;
    }
    if t[0] == '|' {
        return count_char_exec(&t, '|') >= 2;
    }
    find_char_exec(&t, '|').is_some() && t[0] != '>'
}

/// Returns true when `line` looks like a GFM/markdown table row.
pub fn is_table_line(line: &str) -> (r: bool)
    ensures
        r == spec_is_table_line(line@),
{
    is_table_chars(&chars_of(line))
}

fn all_delimiter_chars(v: &[char]) -> (r: bool)
    ensures
        r == (forall|j: int| 0 <= j < v@.len() ==> is_delimiter_char(#[trigger] v@[j])),
{
    let mut i: usize = 0;
    while i < v.len()
        invariant
            i <= v@.len(),
            forall|j: int| 0 <= j < i ==> is_delimiter_char(#[trigger] v@[j]),
        decreases v@.len() - i,
    {
        let c = v[i];
        if !(c == '-' || c == ':' || c == ' ') {
            return false;
        }
        i = i + 1;
    }
    true
}

fn is_delimiter_chars(line: &[char]) -> (r: bool)
    ensures
        r == spec_is_delimiter_row(line@),
{
    if !is_table_chars(line) {
        return false;
    }
    let cells = split_char(line, '|');
    let ghost cs = split(line@, '|');
    let mut k: usize = 0;
    while k < cells.len()
        invariant
            k <= cells@.len(),
            cells.deep_view() == cs,
            cs == split(line@, '|'),
            forall|k2: int, j: int|
                0 <= k2 < k && 0 <= j < trim(cs[k2]).len() ==> is_delimiter_char(
                    #[trigger] trim(cs[k2])[j],
                ),
        decreases cells@.len() - k,
    {
        assert(cells@[k as int]@ == cs[k as int]);
        let cell = trim_of(&cells[k]);
        if !all_delimiter_chars(&cell) {
            proof {
                let j = choose|j: int| 0 <= j < cell@.len() && !is_delimiter_char(cell@[j]);
                assert(!is_delimiter_char(trim(cs[k as int])[j]));
            }
            return false;
        }
        k = k + 1;
    }
    true
}

/// Returns true when `line` is a GFM delimiter/separator row (`|---|---|`).
pub fn is_delimiter_row(line: &str) -> (r: bool)
    ensures
        r == spec_is_delimiter_row(line@),
{
    is_delimiter_chars(&chars_of(line))
}

/// Character indices of every pipe in `line`.
pub fn pipe_char_columns(line: &str) -> (r: Vec<usize>)
    ensures
        r@ == spec_pipe_columns(line@),
{
    let v = chars_of(line);
    let mut r: Vec<usize> = Vec::new();
    let mut i: usize = 0;
    while i < v.len()
        invariant
            i <= v@.len(),
            r@ == spec_pipe_columns(v@.take(i as int)),
        decreases v@.len() - i,
    {
        assert(v@.take(i + 1).drop_last() =~= v@.take(i as int));
        if v[i] == '|' {
            r.push(i);
        }
        i = i + 1;
    }
    assert(v@.take(v@.len() as int) =~= v@);
    r
}

// ─────────────────────────────────────────────────────────────────────────────
// Table block detection
// ─────────────────────────────────────────────────────────────────────────────

/// A contiguous GFM table block in the buffer (0-indexed line numbers).
#[derive(Debug, Clone, PartialEq, Eq, Structural)]
pub struct TableRange {
    pub start_line: usize,
    /// Exclusive end line.
    pub end_line: usize,
}

/// Line `i` exists and is a table row.
pub open spec fn row_at(ls: Seq<Seq<char>>, i: int) -> bool {
    0 <= i < ls.len() && spec_is_table_line(ls[i])
}

/// Line `i` exists and opens or closes a fenced code block.
pub open spec fn fence_at(ls: Seq<Seq<char>>, i: int) -> bool {
    0 <= i < ls.len() && starts_with(trim(ls[i]), "```"@)
}

/// Number of fence lines among the first `n` lines.
pub open spec fn fences_before(ls: Seq<Seq<char>>, n: int) -> nat
    decreases n,
{
    if n <= 0 {
        0
    } else {
        fences_before(ls, n - 1) + if fence_at(ls, n - 1) {
            1nat
        } else {
            0nat
        }
    }
}

/// Line `i` (of `total`) lies inside a fenced code block opened above it.
pub open spec fn in_code_at(ls: Seq<Seq<char>>, total: int, i: int) -> bool {
    i < total && fences_before(ls, i) % 2 == 1
}

/// Start of the table rows that directly precede line `es` (outside code).
pub open spec fn extend_back(ls: Seq<Seq<char>>, total: int, es: int) -> int
    decreases es,
{
    if es > 0 && !in_code_at(ls, total, es - 1) && row_at(ls, es - 1) {
        extend_back(ls, total, es - 1)
    } else {
        es
    }
}

/// End of the run of table rows (outside code) that starts at `line`.
pub open spec fn run_end(ls: Seq<Seq<char>>, total: int, line: int) -> int
    decreases total - line,
{
    if 0 <= line < total && !in_code_at(ls, total, line) && row_at(ls, line) {
        run_end(ls, total, line + 1)
    } else {
        line
    }
}

/// A run of table rows `[start, end)` is a table: two rows whose second is a
/// delimiter row, or three rows or more.
pub open spec fn qualifies(ls: Seq<Seq<char>>, start: int, end: int) -> bool {
    &&& end - start >= 2
    &&& (spec_is_delimiter_row(ls[start + 1]) || end - start >= 3)
}

/// Tables found scanning from `line` while lines before `se` remain, with
/// `in_cb` telling whether `line` is inside a fenced code block.
pub open spec fn scan_tables(ls: Seq<Seq<char>>, total: int, se: int, line: int, in_cb: bool) -> Seq<
    TableRange,
>
    decreases se - line,
{
    if line >= se || line < 0 {
        seq![]
    } else if in_cb {
        scan_tables(ls, total, se, line + 1, !fence_at(ls, line))
    } else if fence_at(ls, line) {
        scan_tables(ls, total, se, line + 1, true)
    } else if row_at(ls, line) {
        let end = run_end(ls, total, line + 1);
        let rest = if line < end < se {
            scan_tables(ls, total, se, end, false)
        } else {
            seq![]
        };
        if qualifies(ls, line, end) {
            seq![TableRange { start_line: line as usize, end_line: end as usize }] + rest
        } else {
            rest
        }
    } else {
        scan_tables(ls, total, se, line + 1, false)
    }
}

/// The ranges of `rs` that end after line `ss`, in order.
pub open spec fn ending_after(rs: Seq<TableRange>, ss: int) -> Seq<TableRange>
    decreases rs.len(),
{
    if rs.len() == 0 {
        seq![]
    } else {
        let r = ending_after(rs.drop_last(), ss);
        if rs.last().end_line > ss {
            r.push(rs.last())
        } else {
            r
        }
    }
}

/// Table blocks overlapping `[scan_start, scan_end)` among `total` lines: the
/// scan is extended backward over table rows so a table that starts above the
/// window is found whole, and a table that ends before the window is dropped.
pub open spec fn spec_detect_table_ranges(
    ls: Seq<Seq<char>>,
    total: int,
    scan_start: int,
    scan_end: int,
) -> Seq<TableRange> {
    let ss = if scan_start < total { scan_start } else { total };
    let se = if scan_end < total { scan_end } else { total };
    if ss >= se {
        seq![]
    } else {
        let es = extend_back(ls, total, ss);
        ending_after(scan_tables(ls, total, se, es, in_code_at(ls, total, es)), ss)
    }
}

fn keep_ending_after(rs: Vec<TableRange>, ss: usize) -> (r: Vec<TableRange>)
    ensures
        r@ == ending_after(rs@, ss as int),
{
    let mut out: Vec<TableRange> = Vec::new();
    let mut i: usize = 0;
    while i < rs.len()
        invariant
            i <= rs@.len(),
            out@ == ending_after(rs@.take(i as int), ss as int),
        decreases rs@.len() - i,
    {
        assert(rs@.take(i + 1).drop_last() =~= rs@.take(i as int));
        assert(rs@.take(i + 1).last() == rs@[i as int]);
        if rs[i].end_line > ss {
            out.push(TableRange { start_line: rs[i].start_line, end_line: rs[i].end_line });
        }
        i = i + 1;
    }
    assert(rs@.take(rs@.len() as int) =~= rs@);
    out
}

fn is_fence(ls: &Vec<Vec<char>>, i: usize) -> (r: bool)
    ensures
        r == fence_at(ls.deep_view(), i as int),
{
    if i >= ls.len() {
        return false;
    }
    assert(ls.deep_view()[i as int] == ls@[i as int]@);
    let t = trim_of(&ls[i]);
    let fence = chars_of("```");
    starts_with_exec(&t, &fence)
}

fn is_row(ls: &Vec<Vec<char>>, i: usize) -> (r: bool)
    ensures
        r == row_at(ls.deep_view(), i as int),
{
    if i >= ls.len() {
        return false;
    }
    assert(ls.deep_view()[i as int] == ls@[i as int]@);
    is_table_chars(&ls[i])
}

/// Returns true when line `i` lies inside an opening fenced code block.
fn in_code_block_at_line(ls: &Vec<Vec<char>>, total: usize, i: usize) -> (r: bool)
    ensures
        r == in_code_at(ls.deep_view(), total as int, i as int),
{
    if i >= total {
        return false;
    }
    let mut in_block = false;
    let mut k: usize = 0;
    while k < i
        invariant
            k <= i,
            in_block == (fences_before(ls.deep_view(), k as int) % 2 == 1),
        decreases i - k,
    {
        if is_fence(ls, k) {
            in_block = !in_block;
        }
        k = k + 1;
    }
    in_block
}

fn detect_in(ls: &Vec<Vec<char>>, total: usize, scan_start: usize, scan_end: usize) -> (r: Vec<
    TableRange,
>)
    ensures
        r@ == spec_detect_table_ranges(
            ls.deep_view(),
            total as int,
            scan_start as int,
            scan_end as int,
        ),
{
    let ghost l = ls.deep_view();
    let ss = if scan_start < total {
        scan_start
    } else {
        total
    };
    let se = if scan_end < total {
        scan_end
    } else {
        total
    };
    if ss >= se {
        return Vec::new();
    }
    let mut es = ss;
    while es > 0
        invariant
            es <= ss,
            l == ls.deep_view(),
            extend_back(l, total as int, es as int) == extend_back(l, total as int, ss as int),
        ensures
            es as int == extend_back(l, total as int, ss as int),
        decreases es,
    {
        let prev = es - 1;
        if in_code_block_at_line(ls, total, prev) {
            break;
        }
        if is_row(ls, prev) {
            es = prev;
        } else {
            break;
        }
    }
    assert(es as int == extend_back(l, total as int, ss as int));
    let mut ranges: Vec<TableRange> = Vec::new();
    let mut line = es;
    let mut in_cb = in_code_block_at_line(ls, total, line);
    let ghost goal = scan_tables(l, total as int, se as int, es as int, in_cb);
    while line < se
        invariant
            se <= total,
            line <= total,
            l == ls.deep_view(),
            ranges@ + scan_tables(l, total as int, se as int, line as int, in_cb) == goal,
        decreases total - line,
    {
        if in_cb {
            if is_fence(ls, line) {
                in_cb = false;
            }
            line = line + 1;
        } else if is_fence(ls, line) {
            in_cb = true;
            line = line + 1;
        } else if is_row(ls, line) {
            let start = line;
            line = line + 1;
            let mut table_lines: usize = 1;
            while line < total
                invariant
                    start < line <= total,
                    table_lines == line - start,
                    l == ls.deep_view(),
                    run_end(l, total as int, line as int) == run_end(l, total as int, start + 1),
                ensures
                    start < line <= total,
                    table_lines == line - start,
                    line as int == run_end(l, total as int, start + 1),
                decreases total - line,
            {
                if in_code_block_at_line(ls, total, line) {
                    break;
                }
                if is_row(ls, line) {
                    table_lines = table_lines + 1;
                    line = line + 1;
                } else {
                    break;
                }
            }
            assert(line as int == run_end(l, total as int, start + 1));
            let q = if table_lines >= 2 {
                if start + 1 < ls.len() {
                    assert(l[start + 1] == ls@[start + 1]@);
                    is_delimiter_chars(&ls[start + 1]) || table_lines >= 3
                } else {
                    false
                }
            } else {
                false
            };
            proof {
                if table_lines >= 2 {
                    assert(row_at(l, start + 1));
                }
            }
            assert(q == qualifies(l, start as int, line as int));
            if q {
                let ghost before = ranges@;
                ranges.push(TableRange { start_line: start, end_line: line });
                assert(ranges@ + scan_tables(l, total as int, se as int, line as int, in_cb)
                    =~= before + scan_tables(l, total as int, se as int, start as int, in_cb));
            } else {
                assert(scan_tables(l, total as int, se as int, start as int, in_cb)
                    == scan_tables(l, total as int, se as int, line as int, in_cb));
            }
        } else {
            line = line + 1;
        }
    }
    assert(ranges@ + seq![] =~= ranges@);
    keep_ending_after(ranges, ss)
}

/// The lines of a buffer as character vectors.
fn lines_as_chars(lines: &[String]) -> (r: Vec<Vec<char>>)
    ensures
        r.deep_view() == lines@.map_values(|s: String| s@),
{
    let mut r: Vec<Vec<char>> = Vec::new();
    let mut i: usize = 0;
    while i < lines.len()
        invariant
            i <= lines@.len(),
            r.deep_view() == lines@.take(i as int).map_values(|s: String| s@),
        decreases lines@.len() - i,
    {
        let v = chars_of(lines[i].as_str());
        let ghost before = r.deep_view();
        assert(v.deep_view() =~= v@);
        assert(v@ == lines@[i as int]@);
        r.push(v);
        assert(r.deep_view() =~= before.push(v@));
        assert(r.deep_view() =~= lines@.take(i + 1).map_values(|s: String| s@));
        i = i + 1;
    }
    assert(lines@.take(lines@.len() as int) =~= lines@);
    r
}

/// The buffer model: the text of each line.
pub open spec fn line_texts(lines: Seq<String>) -> Seq<Seq<char>> {
    lines.map_values(|s: String| s@)
}

/// Detect table blocks overlapping `[scan_start, scan_end)` (0-indexed, end
/// exclusive) among the first `total_lines` lines of `lines`; a line index past
/// the end of `lines` reads as a missing line.
///
/// Skips lines inside fenced code blocks. A block qualifies when it has at least
/// two consecutive table lines and the second line is a delimiter row, or when
/// three or more consecutive table lines appear.
pub fn detect_table_ranges(
    lines: &[String],
    total_lines: usize,
    scan_start: usize,
    scan_end: usize,
) -> (r: Vec<TableRange>)
    ensures
        r@ == spec_detect_table_ranges(
            line_texts(lines@),
            total_lines as int,
            scan_start as int,
            scan_end as int,
        ),
{
    let ls = lines_as_chars(lines);
    detect_in(&ls, total_lines, scan_start, scan_end)
}

/// Line `k` lies in range `r`.
pub open spec fn covers(r: TableRange, k: int) -> bool {
    r.start_line <= k < r.end_line
}

/// Ranges that start at or after `lo`, end by `total`, span two rows or more
/// of table rows each, and follow one another without overlap.
pub open spec fn ranges_well_formed(rs: Seq<TableRange>, ls: Seq<Seq<char>>, lo: int, total: int) -> bool {
    &&& forall|i: int|
        0 <= i < rs.len() ==> {
            &&& lo <= #[trigger] rs[i].start_line
            &&& rs[i].start_line + 2 <= rs[i].end_line <= total
        }
    &&& forall|i: int, k: int| 0 <= i < rs.len() && #[trigger] covers(rs[i], k) ==> row_at(ls, k)
    &&& forall|i: int, j: int| 0 <= i < j < rs.len() ==> #[trigger] rs[i].end_line <= #[trigger] rs[j].start_line
}

proof fn lemma_run_end(ls: Seq<Seq<char>>, total: int, line: int)
    requires
        0 <= line,
    ensures
        line <= run_end(ls, total, line),
        run_end(ls, total, line) == line || run_end(ls, total, line) <= total,
        forall|k: int| line <= k < run_end(ls, total, line) ==> row_at(ls, k),
    decreases total - line,
{
    if 0 <= line < total && !in_code_at(ls, total, line) && row_at(ls, line) {
        lemma_run_end(ls, total, line + 1);
    }
}

/// `a` and `b` hold the same lines among the first `total`: a line is there in
/// both or in neither, and the same where it is there.
pub open spec fn same_lines_below(a: Seq<Seq<char>>, b: Seq<Seq<char>>, total: int) -> bool {
    forall|i: int| 0 <= i < total ==> #[trigger] same_line(a, b, i)
}

/// Line `i` is there in both `a` and `b` or in neither, and the same where
/// it is there.
pub open spec fn same_line(a: Seq<Seq<char>>, b: Seq<Seq<char>>, i: int) -> bool {
    (i < a.len()) == (i < b.len()) && (i < a.len() ==> a[i] == b[i])
}

proof fn lemma_fences_below(a: Seq<Seq<char>>, b: Seq<Seq<char>>, total: int, n: int)
    requires
        same_lines_below(a, b, total),
        n <= total,
    ensures
        fences_before(a, n) == fences_before(b, n),
    decreases n,
{
    if n > 0 {
        lemma_fences_below(a, b, total, n - 1);
        assert(same_line(a, b, n - 1));
        if n - 1 < a.len() {
            assert(a[n - 1] == b[n - 1]);
        }
    }
}

proof fn lemma_line_below(a: Seq<Seq<char>>, b: Seq<Seq<char>>, total: int, i: int)
    requires
        same_lines_below(a, b, total),
        0 <= i < total,
    ensures
        row_at(a, i) == row_at(b, i),
        fence_at(a, i) == fence_at(b, i),
        in_code_at(a, total, i) == in_code_at(b, total, i),
{
    assert(same_line(a, b, i));
    if i < a.len() {
        assert(a[i] == b[i]);
    }
    lemma_fences_below(a, b, total, i);
}

proof fn lemma_extend_back_below(a: Seq<Seq<char>>, b: Seq<Seq<char>>, total: int, es: int)
    requires
        same_lines_below(a, b, total),
        es <= total,
    ensures
        extend_back(a, total, es) == extend_back(b, total, es),
    decreases es,
{
    if es > 0 {
        lemma_line_below(a, b, total, es - 1);
        lemma_extend_back_below(a, b, total, es - 1);
    }
}

proof fn lemma_run_end_below(a: Seq<Seq<char>>, b: Seq<Seq<char>>, total: int, line: int)
    requires
        same_lines_below(a, b, total),
        0 <= line,
    ensures
        run_end(a, total, line) == run_end(b, total, line),
    decreases total - line,
{
    if line < total {
        lemma_line_below(a, b, total, line);
        lemma_run_end_below(a, b, total, line + 1);
    }
}

proof fn lemma_scan_below(a: Seq<Seq<char>>, b: Seq<Seq<char>>, total: int, se: int, line: int, in_cb: bool)
    requires
        same_lines_below(a, b, total),
        0 <= line,
        se <= total,
    ensures
        scan_tables(a, total, se, line, in_cb) == scan_tables(b, total, se, line, in_cb),
    decreases se - line,
{
    if line < se {
        lemma_line_below(a, b, total, line);
        if in_cb {
            lemma_scan_below(a, b, total, se, line + 1, !fence_at(a, line));
        } else if fence_at(a, line) {
            lemma_scan_below(a, b, total, se, line + 1, true);
        } else if row_at(a, line) {
            let end = run_end(a, total, line + 1);
            lemma_run_end_below(a, b, total, line + 1);
            lemma_run_end(a, total, line + 1);
            if line < end < se {
                lemma_scan_below(a, b, total, se, end, false);
            }
            if end - line >= 2 {
                assert(row_at(a, line + 1));
                assert(same_line(a, b, line + 1));
                assert(a[line + 1] == b[line + 1]);
            }
            assert(qualifies(a, line, end) == qualifies(b, line, end));
        } else {
            lemma_scan_below(a, b, total, se, line + 1, false);
        }
    }
}

/// Detection reads only the first `total_lines` lines: two line sequences that
/// hold the same lines there give the same tables.
pub proof fn law_detect_reads_first_lines(a: Seq<Seq<char>>, b: Seq<Seq<char>>, total: int, scan_start: int, scan_end: int)
    requires
        same_lines_below(a, b, total),
        0 <= scan_start,
        0 <= scan_end,
    ensures
        spec_detect_table_ranges(a, total, scan_start, scan_end) == spec_detect_table_ranges(b, total, scan_start, scan_end),
{
    let ss = if scan_start < total { scan_start } else { total };
    let se = if scan_end < total { scan_end } else { total };
    if ss < se {
        lemma_extend_back_below(a, b, total, ss);
        let es = extend_back(a, total, ss);
        lemma_extend_back_nonneg(a, total, ss);
        if es < total {
            lemma_line_below(a, b, total, es);
        }
        lemma_scan_below(a, b, total, se, es, in_code_at(a, total, es));
    }
}

proof fn lemma_scan_well_formed(ls: Seq<Seq<char>>, total: int, se: int, line: int, in_cb: bool)
    requires
        0 <= line,
        se <= total <= usize::MAX,
    ensures
        ranges_well_formed(scan_tables(ls, total, se, line, in_cb), ls, line, total),
        ranges_qualify(scan_tables(ls, total, se, line, in_cb), ls, se),
    decreases se - line,
{
    let rs = scan_tables(ls, total, se, line, in_cb);
    if line >= se {
    } else if in_cb {
        lemma_scan_well_formed(ls, total, se, line + 1, !fence_at(ls, line));
    } else if fence_at(ls, line) {
        lemma_scan_well_formed(ls, total, se, line + 1, true);
    } else if row_at(ls, line) {
        let end = run_end(ls, total, line + 1);
        lemma_run_end(ls, total, line + 1);
        let rest = if line < end < se {
            scan_tables(ls, total, se, end, false)
        } else {
            seq![]
        };
        if line < end < se {
            lemma_scan_well_formed(ls, total, se, end, false);
        }
        assert(ranges_well_formed(rest, ls, end, total));
        assert(ranges_qualify(rest, ls, se));
        if qualifies(ls, line, end) {
            let head = TableRange { start_line: line as usize, end_line: end as usize };
            assert(rs == seq![head] + rest);
            assert forall|i: int| 0 <= i < rs.len() implies (#[trigger] rs[i]).start_line < se && qualifies(ls, rs[i].start_line as int, rs[i].end_line as int) by {
                if i > 0 {
                    assert(rs[i] == rest[i - 1]);
                }
            }
            assert forall|i: int, k: int|
                0 <= i < rs.len() && #[trigger] covers(rs[i], k) implies row_at(ls, k) by {
                if i > 0 {
                    assert(rs[i] == rest[i - 1]);
                    assert(covers(rest[i - 1], k));
                }
            }
            assert forall|i: int, j: int| 0 <= i < j < rs.len() implies #[trigger] rs[i].end_line <= #[trigger] rs[j].start_line by {
                if i > 0 {
                    assert(rs[i] == rest[i - 1]);
                }
                assert(rs[j] == rest[j - 1]);
            }
        } else {
            assert(rs == rest);
        }
    } else {
        lemma_scan_well_formed(ls, total, se, line + 1, false);
    }
}

/// Each range starts before line `se` and is a table.
pub open spec fn ranges_qualify(rs: Seq<TableRange>, ls: Seq<Seq<char>>, se: int) -> bool {
    forall|i: int| 0 <= i < rs.len() ==> (#[trigger] rs[i]).start_line < se && qualifies(ls, rs[i].start_line as int, rs[i].end_line as int)
}

proof fn lemma_ending_after(rs: Seq<TableRange>, ss: int)
    ensures
        forall|i: int| 0 <= i < ending_after(rs, ss).len() ==> (#[trigger] ending_after(rs, ss)[i]).end_line > ss
            && rs.contains(ending_after(rs, ss)[i]),
        (forall|i: int, j: int| 0 <= i < j < rs.len() ==> #[trigger] rs[i].end_line <= #[trigger] rs[j].start_line)
            ==> (forall|i: int, j: int| 0 <= i < j < ending_after(rs, ss).len()
                ==> #[trigger] ending_after(rs, ss)[i].end_line <= #[trigger] ending_after(rs, ss)[j].start_line),
    decreases rs.len(),
{
    if rs.len() > 0 {
        let d = rs.drop_last();
        lemma_ending_after(d, ss);
        let r0 = ending_after(d, ss);
        let r = ending_after(rs, ss);
        assert forall|i: int| 0 <= i < r.len() implies (#[trigger] r[i]).end_line > ss && rs.contains(r[i]) by {
            if i < r0.len() {
                assert(r[i] == r0[i]);
                assert(d.contains(r0[i]));
                let j = choose|j: int| 0 <= j < d.len() && d[j] == r0[i];
                assert(rs[j] == d[j]);
            } else {
                assert(r[i] == rs.last());
                assert(rs[rs.len() - 1] == rs.last());
            }
        }
        if forall|i: int, j: int| 0 <= i < j < rs.len() ==> #[trigger] rs[i].end_line <= #[trigger] rs[j].start_line {
            assert forall|i: int, j: int| 0 <= i < j < d.len() implies #[trigger] d[i].end_line <= #[trigger] d[j].start_line by {
                assert(d[i] == rs[i]);
                assert(d[j] == rs[j]);
            }
            assert forall|i: int, j: int| 0 <= i < j < r.len() implies #[trigger] r[i].end_line <= #[trigger] r[j].start_line by {
                if j < r0.len() {
                    assert(r[i] == r0[i]);
                    assert(r[j] == r0[j]);
                } else {
                    assert(r[i] == r0[i]);
                    assert(d.contains(r0[i]));
                    let k = choose|k: int| 0 <= k < d.len() && d[k] == r0[i];
                    assert(rs[k] == d[k]);
                    assert(r[j] == rs[rs.len() - 1]);
                }
            }
        }
    }
}

/// Every detected range overlaps the scan window (it starts before its end and
/// ends after its start) and is a table: two or more existing table rows, the
/// second a delimiter row unless there are three or more. The ranges end
/// within the buffer and come in order without overlapping.
pub proof fn law_detected_ranges_well_formed(
    ls: Seq<Seq<char>>,
    total: int,
    scan_start: int,
    scan_end: int,
)
    requires
        0 <= scan_start,
        0 <= total <= usize::MAX,
    ensures
        ranges_well_formed(spec_detect_table_ranges(ls, total, scan_start, scan_end), ls, 0, total),
        ranges_qualify(spec_detect_table_ranges(ls, total, scan_start, scan_end), ls, if scan_end < total { scan_end } else { total }),
        forall|i: int| 0 <= i < spec_detect_table_ranges(ls, total, scan_start, scan_end).len()
            ==> (#[trigger] spec_detect_table_ranges(ls, total, scan_start, scan_end)[i]).end_line > scan_start,
{
    let ss = if scan_start < total { scan_start } else { total };
    let se = if scan_end < total { scan_end } else { total };
    if ss < se {
        let es = extend_back(ls, total, ss);
        lemma_extend_back_nonneg(ls, total, ss);
        let rs = scan_tables(ls, total, se, es, in_code_at(ls, total, es));
        lemma_scan_well_formed(ls, total, se, es, in_code_at(ls, total, es));
        lemma_ending_after(rs, ss);
        let r = ending_after(rs, ss);
        assert forall|i: int| 0 <= i < r.len() implies {
            &&& 0 <= #[trigger] r[i].start_line
            &&& r[i].start_line + 2 <= r[i].end_line <= total
            &&& r[i].start_line < se && qualifies(ls, r[i].start_line as int, r[i].end_line as int)
            &&& r[i].end_line > scan_start
        } by {
            let j = choose|j: int| 0 <= j < rs.len() && rs[j] == r[i];
            assert(rs[j].start_line >= es);
        }
        assert forall|i: int, k: int| 0 <= i < r.len() && #[trigger] covers(r[i], k) implies row_at(ls, k) by {
            let j = choose|j: int| 0 <= j < rs.len() && rs[j] == r[i];
            assert(covers(rs[j], k));
        }
    }
}

proof fn lemma_extend_back_nonneg(ls: Seq<Seq<char>>, total: int, es: int)
    requires
        0 <= es,
    ensures
        0 <= extend_back(ls, total, es) <= es,
    decreases es,
{
    if es > 0 && !in_code_at(ls, total, es - 1) && row_at(ls, es - 1) {
        lemma_extend_back_nonneg(ls, total, es - 1);
    }
}

// ─────────────────────────────────────────────────────────────────────────────
// Guide cache
// ─────────────────────────────────────────────────────────────────────────────

/// The BLAKE3 digest of `data`.
pub uninterp spec fn spec_blake3(data: Seq<u8>) -> Seq<u8>;

/// `blake3::hash`: the 32-byte BLAKE3 digest of `data`, a function of the bytes alone.
#[verifier::external_body]
pub(crate) fn blake3_hash(data: &[u8]) -> (r: [u8; 32])
    ensures
        r@ == spec_blake3(data@),
{
    *blake3::hash(data).as_bytes()
}

/// The bytes hashed for a table: each line's UTF-8 followed by a line feed.
pub open spec fn table_bytes(ls: Seq<Seq<char>>, start: int, end: int) -> Seq<u8>
    decreases end - start,
{
    if end <= start {
        seq![]
    } else {
        table_bytes(ls, start, end - 1) + vstd::utf8::encode_utf8(ls[end - 1]) + seq![10u8]
    }
}

/// Hash of the lines of `range`, or `None` when one of them is missing.
pub open spec fn spec_table_hash(ls: Seq<Seq<char>>, range: TableRange) -> Option<Seq<u8>> {
    if range.start_line < range.end_line && range.end_line > ls.len() {
        None
    } else {
        Some(spec_blake3(table_bytes(ls, range.start_line as int, range.end_line as int)))
    }
}

/// Hashes the content of the lines in `range`.
pub fn hash_table_lines(range: &TableRange, lines: &[String]) -> (r: Option<[u8; 32]>)
    ensures
        r matches Some(h) ==> spec_table_hash(line_texts(lines@), *range) == Some(h@),
        r is None ==> spec_table_hash(line_texts(lines@), *range) is None,
{
    let ghost ls = line_texts(lines@);
    if range.start_line < range.end_line && range.end_line > lines.len() {
        return None;
    }
    let mut buf: Vec<u8> = Vec::new();
    if range.start_line >= range.end_line {
        assert(buf@ =~= table_bytes(ls, range.start_line as int, range.end_line as int));
        return Some(blake3_hash(buf.as_slice()));
    }
    let mut k = range.start_line;
    while k < range.end_line
        invariant
            range.start_line <= k <= range.end_line,
            range.end_line <= lines@.len(),
            ls == line_texts(lines@),
            buf@ == table_bytes(ls, range.start_line as int, k as int),
        decreases range.end_line - k,
    {
        let bytes = lines[k].as_str().as_bytes();
        let mut b: usize = 0;
        let ghost before = buf@;
        while b < bytes.len()
            invariant
                b <= bytes@.len(),
                buf@ == before + bytes@.take(b as int),
            decreases bytes@.len() - b,
        {
            buf.push(bytes[b]);
            assert(before + bytes@.take(b + 1) =~= (before + bytes@.take(b as int)).push(bytes@[b as int]));
            b = b + 1;
        }
        assert(bytes@.take(bytes@.len() as int) =~= bytes@);
        buf.push(10u8);
        assert(ls[k as int] == lines@[k as int]@);
        assert(buf@ =~= table_bytes(ls, range.start_line as int, k + 1));
        k = k + 1;
    }
    Some(blake3_hash(buf.as_slice()))
}

/// Cached pipe columns of one table block.
#[derive(Debug, Clone, PartialEq, Eq)]
pub struct CachedTableGuides {
    pub end_line: usize,
    pub pipe_columns: Vec<usize>,
}

impl CachedTableGuides {
    /// An equal, independent copy.
    pub fn duplicate(&self) -> (r: Self)
        ensures
            r.end_line == self.end_line,
            r.pipe_columns@ == self.pipe_columns@,
    {
        let mut cols: Vec<usize> = Vec::new();
        let mut i: usize = 0;
        while i < self.pipe_columns.len()
            invariant
                i <= self.pipe_columns@.len(),
                cols@ == self.pipe_columns@.take(i as int),
            decreases self.pipe_columns@.len() - i,
        {
            cols.push(self.pipe_columns[i]);
            assert(self.pipe_columns@.take(i + 1) =~= self.pipe_columns@.take(i as int).push(self.pipe_columns@[i as int]));
            i = i + 1;
        }
        assert(self.pipe_columns@.take(self.pipe_columns@.len() as int) =~= self.pipe_columns@);
        CachedTableGuides { end_line: self.end_line, pipe_columns: cols }
    }
}

/// One cache entry: the key (first line, content hash) and the guides.
#[derive(Debug, Clone)]
pub struct GuideCacheEntry {
    pub start_line: usize,
    pub content_hash: [u8; 32],
    pub guides: CachedTableGuides,
}

/// Abstract content of an entry: key and guides as plain values.
pub struct EntryView {
    pub start_line: usize,
    pub content_hash: Seq<u8>,
    pub end_line: usize,
    pub pipe_columns: Seq<usize>,
}

pub open spec fn entry_view(e: GuideCacheEntry) -> EntryView {
    EntryView {
        start_line: e.start_line,
        content_hash: e.content_hash@,
        end_line: e.guides.end_line,
        pipe_columns: e.guides.pipe_columns@,
    }
}

/// Per-table guide cache keyed by `(start_line, BLAKE3 content hash)`.
#[derive(Debug, Clone)]
pub struct TableGuideCache {
    entries: Vec<GuideCacheEntry>,
}

/// The first entry with the given key.
pub open spec fn find_entry(es: Seq<EntryView>, start: usize, hash: Seq<u8>) -> Option<EntryView>
    decreases es.len(),
{
    if es.len() == 0 {
        None
    } else if es[0].start_line == start && es[0].content_hash == hash {
        Some(es[0])
    } else {
        find_entry(es.drop_first(), start, hash)
    }
}

/// No two entries share a key.
pub open spec fn keys_unique(es: Seq<EntryView>) -> bool {
    forall|i: int, j: int|
        0 <= i < j < es.len() ==> !(#[trigger] es[i].start_line == #[trigger] es[j].start_line
            && es[i].content_hash == es[j].content_hash)
}

/// One lookup-or-insert: the cache afterwards and the guides handed back.
/// A table whose first line holds fewer than two pipes gets no guides and is
/// not cached.
pub open spec fn cache_step(es: Seq<EntryView>, ls: Seq<Seq<char>>, range: TableRange) -> (
    Seq<EntryView>,
    Option<EntryView>,
) {
    match spec_table_hash(ls, range) {
        None => (es, None),
        Some(h) => cache_step_hashed(es, ls, range, h),
    }
}

/// The lookup-or-insert of a table whose content hash is `h`.
pub open spec fn cache_step_hashed(es: Seq<EntryView>, ls: Seq<Seq<char>>, range: TableRange, h: Seq<u8>) -> (
    Seq<EntryView>,
    Option<EntryView>,
) {
    match find_entry(es, range.start_line, h) {
        Some(e) => (es, Some(e)),
        None => if range.start_line < ls.len() && spec_pipe_columns(ls[range.start_line as int]).len() >= 2 {
            let e = EntryView {
                start_line: range.start_line,
                content_hash: h,
                end_line: range.end_line,
                pipe_columns: spec_pipe_columns(ls[range.start_line as int]),
            };
            (es.push(e), Some(e))
        } else {
            (es, None)
        },
    }
}

proof fn lemma_find_entry_absent(es: Seq<EntryView>, start: usize, hash: Seq<u8>)
    ensures
        find_entry(es, start, hash) is None <==> forall|i: int|
            0 <= i < es.len() ==> !(#[trigger] es[i].start_line == start && es[i].content_hash == hash),
        find_entry(es, start, hash) matches Some(e) ==> e.start_line == start && e.content_hash == hash,
    decreases es.len(),
{
    if es.len() > 0 {
        lemma_find_entry_absent(es.drop_first(), start, hash);
        if !(es[0].start_line == start && es[0].content_hash == hash) {
            assert forall|i: int| 0 < i < es.len() implies es[i] == es.drop_first()[i - 1] by {}
        }
    }
}

proof fn lemma_find_entry_push(es: Seq<EntryView>, e: EntryView)
    requires
        find_entry(es, e.start_line, e.content_hash) is None,
    ensures
        find_entry(es.push(e), e.start_line, e.content_hash) == Some(e),
    decreases es.len(),
{
    if es.len() == 0 {
        assert(es.push(e).drop_first() =~= seq![]);
    } else {
        assert(es.push(e).drop_first() =~= es.drop_first().push(e));
        lemma_find_entry_push(es.drop_first(), e);
    }
}

impl Default for TableGuideCache {
    fn default() -> (r: Self)
        ensures
            r.wf(),
            r.view_entries() == Seq::<EntryView>::empty(),
    {
        TableGuideCache::new()
    }
}

impl TableGuideCache {
    pub closed spec fn view_entries(&self) -> Seq<EntryView> {
        self.entries@.map_values(|e: GuideCacheEntry| entry_view(e))
    }

    /// Invariant: each key appears once.
    pub closed spec fn wf(&self) -> bool {
        keys_unique(self.view_entries())
    }

    /// An empty cache.
    pub fn new() -> (r: Self)
        ensures
            r.wf(),
            r.view_entries() == Seq::<EntryView>::empty(),
    {
        let r = TableGuideCache { entries: Vec::new() };
        assert(r.view_entries() =~= Seq::<EntryView>::empty());
        r
    }

    /// Number of cached tables.
    pub fn len(&self) -> (r: usize)
        ensures
            r == self.view_entries().len(),
    {
        self.entries.len()
    }

    /// Drop every cached table.
    pub fn clear(&mut self)
        ensures
            final(self).wf(),
            final(self).view_entries() == Seq::<EntryView>::empty(),
    {
        self.entries.clear();
        assert(self.view_entries() =~= Seq::<EntryView>::empty());
    }

    fn find(&self, start: usize, hash: &[u8; 32]) -> (r: Option<usize>)
        ensures
            r matches Some(i) ==> i < self.entries@.len() && find_entry(self.view_entries(), start, hash@) == Some(self.view_entries()[i as int]),
            r is None ==> find_entry(self.view_entries(), start, hash@) is None,
    {
        let ghost es = self.view_entries();
        assert(es.skip(0) =~= es);
        let mut i: usize = 0;
        while i < self.entries.len()
            invariant
                i <= self.entries@.len(),
                es == self.view_entries(),
                find_entry(es, start, hash@) == find_entry(es.skip(i as int), start, hash@),
            decreases self.entries@.len() - i,
        {
            let e = &self.entries[i];
            assert(es.skip(i as int)[0] == entry_view(*e));
            assert(es.skip(i as int).drop_first() =~= es.skip(i + 1));
            let mut same = e.start_line == start;
            let mut b: usize = 0;
            while same && b < 32
                invariant
                    b <= 32,
                    same ==> forall|t: int| 0 <= t < b ==> e.content_hash@[t] == hash@[t],
                    same ==> e.start_line == start,
                    !same ==> !(e.start_line == start && e.content_hash@ == hash@),
                decreases 32 - b,
            {
                if e.content_hash[b] != hash[b] {
                    same = false;
                }
                b = b + 1;
            }
            if same {
                assert(e.content_hash@ =~= hash@);
                assert(es.skip(i as int)[0].start_line == start);
                assert(es.skip(i as int)[0].content_hash == hash@);
                assert(find_entry(es.skip(i as int), start, hash@) == Some(es.skip(i as int)[0]));
                return Some(i);
            }
            i = i + 1;
        }
        assert(es.skip(i as int) =~= seq![]);
        None
    }

    /// Look up the guides of `range`, computing and caching them when the table
    /// content is new (see [`cache_step`]).
    pub fn get_or_compute(&mut self, range: &TableRange, lines: &[String]) -> (r: Option<CachedTableGuides>)
        requires
            old(self).wf(),
        ensures
            final(self).wf(),
            (final(self).view_entries(), match r {
                Some(g) => Some(EntryView {
                    start_line: range.start_line,
                    content_hash: spec_table_hash(line_texts(lines@), *range).unwrap(),
                    end_line: g.end_line,
                    pipe_columns: g.pipe_columns@,
                }),
                None => None,
            }) == cache_step(old(self).view_entries(), line_texts(lines@), *range),
    {
        let hash = match hash_table_lines(range, lines) {
            Some(h) => h,
            None => return None,
        };
        self.get_or_insert_hashed(range, lines, &hash)
    }

    /// Look up the guides of `range` under the content hash `hash`, computing
    /// and caching them when no entry has that key (see [`cache_step_hashed`]).
    pub fn get_or_insert_hashed(&mut self, range: &TableRange, lines: &[String], hash: &[u8; 32]) -> (r: Option<
        CachedTableGuides,
    >)
        requires
            old(self).wf(),
        ensures
            final(self).wf(),
            (final(self).view_entries(), match r {
                Some(g) => Some(EntryView {
                    start_line: range.start_line,
                    content_hash: hash@,
                    end_line: g.end_line,
                    pipe_columns: g.pipe_columns@,
                }),
                None => None,
            }) == cache_step_hashed(old(self).view_entries(), line_texts(lines@), *range, hash@),
    {
        let ghost ls = line_texts(lines@);
        let ghost es = self.view_entries();
        proof {
            lemma_find_entry_absent(es, range.start_line, hash@);
        }
        match self.find(range.start_line, hash) {
            Some(i) => {
                return Some(self.entries[i].guides.duplicate());
            },
            None => {},
        }
        if range.start_line >= lines.len() {
            return None;
        }
        assert(ls[range.start_line as int] == lines@[range.start_line as int]@);
        let pipe_columns = pipe_char_columns(lines[range.start_line].as_str());
        if pipe_columns.len() < 2 {
            return None;
        }
        let guides = CachedTableGuides { end_line: range.end_line, pipe_columns };
        let entry = GuideCacheEntry { start_line: range.start_line, content_hash: *hash, guides: guides.duplicate() };
        self.entries.push(entry);
        proof {
            let e = entry_view(entry);
            assert(self.view_entries() =~= es.push(e));
            lemma_find_entry_push(es, e);
            assert forall|i: int, j: int|
                0 <= i < j < self.view_entries().len() implies !(#[trigger] self.view_entries()[i].start_line == #[trigger] self.view_entries()[j].start_line
                    && self.view_entries()[i].content_hash == self.view_entries()[j].content_hash) by {
                if j == es.len() {
                    assert(self.view_entries()[i] == es[i]);
                }
            }
        }
        Some(guides)
    }
}

/// Looking the same table up twice hands back the same guides, and the second
/// lookup leaves the cache as the first one left it.
pub proof fn law_cache_lookup_idempotent(es: Seq<EntryView>, ls: Seq<Seq<char>>, range: TableRange)
    ensures
        cache_step(cache_step(es, ls, range).0, ls, range) == (cache_step(es, ls, range).0, cache_step(es, ls, range).1),
{
    let (es1, r1) = cache_step(es, ls, range);
    match spec_table_hash(ls, range) {
        None => {},
        Some(h) => {
            match find_entry(es, range.start_line, h) {
                Some(e) => {},
                None => {
                    if range.start_line < ls.len() && spec_pipe_columns(ls[range.start_line as int]).len() >= 2 {
                        let e = EntryView {
                            start_line: range.start_line,
                            content_hash: h,
                            end_line: range.end_line,
                            pipe_columns: spec_pipe_columns(ls[range.start_line as int]),
                        };
                        lemma_find_entry_push(es, e);
                    }
                },
            }
        },
    }
}

} // verus!
