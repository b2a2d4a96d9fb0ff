//! Mermaid `gitGraph` diagrams: AST, source parser and branch lane assignment.
use vstd::prelude::*;
use crate::text::{
    chars_of, string_of, append, concat, eq, trim, trim_of, trim_start, trim_start_of, lower,
    to_lower, fold, to_fold, upper, to_upper, starts_with, starts_with_exec, find, find_exec, find_char_from,
    find_char_from_exec, lemma_find_char_from_props, lemma_find_from_props, contains,
    contains_exec, lines, lines_of, words, split_ws, word_end, word_end_exec,
    lemma_word_end_bounds, decimal, decimal_exec, parse_unsigned, parse_unsigned_exec, is_ws,
    slice_of,
};

verus! {

// ─────────────────────────────────────────────────────────────────────────────
// AST
// ─────────────────────────────────────────────────────────────────────────────

/// Layout orientation parsed from the `gitGraph` header.
#[derive(Debug, Clone, Copy, PartialEq, Eq, Structural)]
pub enum GitGraphOrientation {
    /// Horizontal lanes, time flows left to right (the default).
    Lr,
    /// Vertical stack, time flows top to bottom.
    Tb,
}

impl Default for GitGraphOrientation {
    fn default() -> (r: Self)
        ensures
            r == GitGraphOrientation::Lr,
    {
        GitGraphOrientation::Lr
    }
}

/// Visual kind for a commit dot (`commit type:`).
#[derive(Debug, Clone, Copy, PartialEq, Eq, Structural)]
pub enum GitCommitKind {
    Normal,
    Reverse,
    Highlight,
}

impl Default for GitCommitKind {
    fn default() -> (r: Self)
        ensures
            r == GitCommitKind::Normal,
    {
        GitCommitKind::Normal
    }
}

/// The commit kind a `type:` value names, ignoring surrounding whitespace and
/// ASCII case.
pub open spec fn spec_commit_kind(value: Seq<char>) -> Option<GitCommitKind> {
    let u = upper(trim(value));
    if u == "NORMAL"@ {
        Some(GitCommitKind::Normal)
    } else if u == "REVERSE"@ {
        Some(GitCommitKind::Reverse)
    } else if u == "HIGHLIGHT"@ {
        Some(GitCommitKind::Highlight)
    } else {
        None
    }
}

impl GitCommitKind {
    pub fn parse(value: &str) -> (r: Option<Self>)
        ensures
            r == spec_commit_kind(value@),
    {
        parse_kind_chars(&chars_of(value))
    }
}

fn parse_kind_chars(v: &[char]) -> (r: Option<GitCommitKind>)
    ensures
        r == spec_commit_kind(v@),
{
    let u = to_upper(&trim_of(v));
    if eq(&u, &chars_of("NORMAL")) {
        Some(GitCommitKind::Normal)
    } else if eq(&u, &chars_of("REVERSE")) {
        Some(GitCommitKind::Reverse)
    } else if eq(&u, &chars_of("HIGHLIGHT")) {
        Some(GitCommitKind::Highlight)
    } else {
        None
    }
}

/// A parse-time warning (non-fatal).
#[derive(Debug, Clone, PartialEq, Eq)]
pub struct GitGraphWarning {
    /// 1-indexed line within the diagram source (header is line 1).
    pub line: usize,
    pub message: String,
}

/// A commit in a git graph.
#[derive(Debug, Clone)]
pub struct GitCommit {
    pub id: String,
    pub branch: String,
    pub message: Option<String>,
    pub tag: Option<String>,
    pub kind: GitCommitKind,
    pub is_merge: bool,
    pub merge_from: Option<String>,
    pub is_cherry_pick: bool,
    pub cherry_pick_from_id: Option<String>,
}

/// A branch in a git graph.
#[derive(Debug, Clone)]
pub struct GitBranch {
    pub name: String,
    pub color_idx: usize,
    /// Optional lane order from `branch <name> order: <n>`.
    pub order: Option<u32>,
}

/// A git graph.
#[derive(Debug, Clone)]
pub struct GitGraph {
    pub orientation: GitGraphOrientation,
    pub commits: Vec<GitCommit>,
    pub branches: Vec<GitBranch>,
    pub warnings: Vec<GitGraphWarning>,
}

// ─────────────────────────────────────────────────────────────────────────────
// Plain-value models
// ─────────────────────────────────────────────────────────────────────────────

pub open spec fn opt_view(o: Option<String>) -> Option<Seq<char>> {
    match o {
        Some(s) => Some(s@),
        None => None,
    }
}

pub struct CommitView {
    pub id: Seq<char>,
    pub branch: Seq<char>,
    pub message: Option<Seq<char>>,
    pub tag: Option<Seq<char>>,
    pub kind: GitCommitKind,
    pub is_merge: bool,
    pub merge_from: Option<Seq<char>>,
    pub is_cherry_pick: bool,
    pub cherry_pick_from_id: Option<Seq<char>>,
}

pub struct BranchView {
    pub name: Seq<char>,
    pub color_idx: nat,
    pub order: Option<u32>,
}

pub struct WarningView {
    pub line: nat,
    pub message: Seq<char>,
}

pub open spec fn commit_view(c: GitCommit) -> CommitView {
    CommitView {
        id: c.id@,
        branch: c.branch@,
        message: opt_view(c.message),
        tag: opt_view(c.tag),
        kind: c.kind,
        is_merge: c.is_merge,
        merge_from: opt_view(c.merge_from),
        is_cherry_pick: c.is_cherry_pick,
        cherry_pick_from_id: opt_view(c.cherry_pick_from_id),
    }
}

pub open spec fn branch_view(b: GitBranch) -> BranchView {
    BranchView { name: b.name@, color_idx: b.color_idx as nat, order: b.order }
}

pub open spec fn warning_view(w: GitGraphWarning) -> WarningView {
    WarningView { line: w.line as nat, message: w.message@ }
}

pub open spec fn commits_view(cs: Seq<GitCommit>) -> Seq<CommitView> {
    cs.map_values(|c: GitCommit| commit_view(c))
}

pub open spec fn branches_view(bs: Seq<GitBranch>) -> Seq<BranchView> {
    bs.map_values(|b: GitBranch| branch_view(b))
}

pub open spec fn warnings_view(ws: Seq<GitGraphWarning>) -> Seq<WarningView> {
    ws.map_values(|w: GitGraphWarning| warning_view(w))
}

pub struct GraphView {
    pub orientation: GitGraphOrientation,
    pub commits: Seq<CommitView>,
    pub branches: Seq<BranchView>,
    pub warnings: Seq<WarningView>,
}

pub open spec fn graph_view(g: GitGraph) -> GraphView {
    GraphView {
        orientation: g.orientation,
        commits: commits_view(g.commits@),
        branches: branches_view(g.branches@),
        warnings: warnings_view(g.warnings@),
    }
}

// ─────────────────────────────────────────────────────────────────────────────
// Statement pieces
// ─────────────────────────────────────────────────────────────────────────────

/// Orientation from the header: `TB` after `gitGraph` (an optional colon
/// between) selects top-to-bottom, anything else left-to-right.
pub open spec fn spec_parse_orientation(header: Seq<char>) -> GitGraphOrientation {
    let l = lower(trim(header));
    let after = if starts_with(l, "gitgraph"@) {
        l.skip(8)
    } else {
        seq![]
    };
    let a = trim(colons_dropped(trim(after)));
    if starts_with(a, "tb"@) {
        GitGraphOrientation::Tb
    } else {
        GitGraphOrientation::Lr
    }
}

/// `s` without its leading colons (`trim_start_matches(':')`).
pub open spec fn colons_dropped(s: Seq<char>) -> Seq<char>
    decreases s.len(),
{
    if s.len() > 0 && s[0] == ':' {
        colons_dropped(s.drop_first())
    } else {
        s
    }
}

fn colons_dropped_exec(v: &[char]) -> (r: Vec<char>)
    ensures
        r@ == colons_dropped(v@),
{
    let mut i: usize = 0;
    assert(v@.skip(0) =~= v@);
    while i < v.len() && v[i] == ':'
        invariant
            i <= v@.len(),
            colons_dropped(v@.skip(i as int)) == colons_dropped(v@),
        decreases v@.len() - i,
    {
        assert(v@.skip(i as int).drop_first() =~= v@.skip(i + 1));
        i = i + 1;
    }
    slice_of(v, i, v.len())
}

fn parse_orientation(header: &[char]) -> (r: GitGraphOrientation)
    ensures
        r == spec_parse_orientation(header@),
{
    let l = to_lower(&trim_of(header));
    proof {
        reveal_strlit("gitgraph");
    }
    let after: Vec<char> = if starts_with_exec(&l, &chars_of("gitgraph")) {
        slice_of(&l, 8, l.len())
    } else {
        Vec::new()
    };
    proof {
        reveal_strlit("gitgraph");
        if starts_with(l@, "gitgraph"@) {
            assert(after@ =~= l@.skip(8));
        } else {
            assert(after@ =~= seq![]);
        }
    }
    let a = trim_of(&colons_dropped_exec(&trim_of(&after)));
    if starts_with_exec(&a, &chars_of("tb")) {
        GitGraphOrientation::Tb
    } else {
        GitGraphOrientation::Lr
    }
}

/// The text after `keyword` (found case-insensitively), trimmed; the whole
/// line when the keyword is absent.
pub open spec fn spec_trim_after_keyword(line: Seq<char>, keyword: Seq<char>) -> Seq<char> {
    match find(lower(line), keyword) {
        Some(i) => trim(line.skip(i + keyword.len())),
        None => line,
    }
}

fn trim_after_keyword(line: &[char], keyword: &str) -> (r: Vec<char>)
    ensures
        r@ == spec_trim_after_keyword(line@, keyword@),
{
    let k = chars_of(keyword);
    let l = to_lower(line);
    let n = line.len();
    match find_exec(&l, &k) {
        Some(i) => {
            proof {
                lemma_find_from_props(l@, k@, 0);
                assert(l@.len() == line@.len());
                assert(i + k@.len() <= line@.len());
            }
            trim_of(&slice_of(line, i + k.len(), line.len()))
        },
        None => slice_of(line, 0, line.len()),
    }
}

/// `value` trimmed, without one pair of matching surrounding quotes.
pub open spec fn spec_strip_quotes(value: Seq<char>) -> Seq<char> {
    let v = trim(value);
    if v.len() >= 2 && ((v[0] == '"' && v.last() == '"') || (v[0] == '\'' && v.last() == '\'')) {
        v.subrange(1, v.len() - 1)
    } else {
        v
    }
}

fn strip_quotes(value: &[char]) -> (r: Vec<char>)
    ensures
        r@ == spec_strip_quotes(value@),
{
    let v = trim_of(value);
    if v.len() >= 2 {
        let first = v[0];
        let last = v[v.len() - 1];
        if (first == '"' && last == '"') || (first == '\'' && last == '\'') {
            return slice_of(&v, 1, v.len() - 1);
        }
    }
    v
}

/// Branch name and optional `order:` value of a `branch` statement tail.
pub open spec fn spec_branch_name_and_order(tail: Seq<char>) -> (Seq<char>, Option<u32>) {
    match find(lower(tail), "order:"@) {
        Some(idx) => {
            let name = trim(tail.take(idx));
            let order_part = trim(tail.skip(idx + 6));
            let ws = words(order_part);
            let order = if ws.len() > 0 {
                match parse_unsigned(ws[0], 10, 0xffff_ffff) {
                    Some(n) => Some(n as u32),
                    None => None,
                }
            } else {
                None
            };
            (spec_strip_quotes(name), order)
        },
        None => (spec_strip_quotes(trim(tail)), None),
    }
}

fn branch_name_and_order(tail: &[char]) -> (r: (Vec<char>, Option<u32>))
    ensures
        (r.0@, r.1) == spec_branch_name_and_order(tail@),
{
    let l = to_lower(tail);
    let n = tail.len();
    let pat = chars_of("order:");
    proof {
        reveal_strlit("order:");
    }
    match find_exec(&l, &pat) {
        Some(idx) => {
            proof {
                lemma_find_from_props(l@, pat@, 0);
                assert(l@.len() == tail@.len());
                assert(pat@.len() == 6);
                assert(idx + 6 <= tail@.len());
            }
            let name = trim_of(&slice_of(tail, 0, idx));
            let order_part = trim_of(&slice_of(tail, idx + 6, tail.len()));
            let ws = split_ws(&order_part);
            let order = if ws.len() > 0 {
                assert(ws.deep_view()[0] == ws@[0]@);
                match parse_unsigned_exec(&ws[0], 10, 0xffff_ffff) {
                    Some(n) => Some(n as u32),
                    None => None,
                }
            } else {
                None
            };
            proof {
                assert(name@ == trim(tail@.take(idx as int)));
            }
            (strip_quotes(&name), order)
        },
        None => (strip_quotes(&trim_of(tail)), None),
    }
}

/// Value of a quoted option: the text up to the matching quote, and what
/// follows it (all of it when the quote is never closed).
pub open spec fn quoted_value(s: Seq<char>) -> (Seq<char>, Seq<char>) {
    match find_char_from(s, s[0], 1) {
        Some(k) => (s.subrange(1, k), s.skip(k + 1)),
        None => (s.skip(1), seq![]),
    }
}

/// An option value (quoted, or up to the next whitespace) and the rest.
pub open spec fn option_value(input: Seq<char>) -> (Seq<char>, Seq<char>) {
    let inp = trim_start(input);
    if inp.len() == 0 {
        (seq![], seq![])
    } else if inp[0] == '"' || inp[0] == '\'' {
        quoted_value(inp)
    } else {
        let end = word_end(inp, 0);
        (inp.take(end), inp.skip(end))
    }
}

fn option_value_exec(input: &[char]) -> (r: (Vec<char>, Vec<char>))
    ensures
        (r.0@, r.1@) == option_value(input@),
        r.1@.len() <= input@.len(),
{
    let inp = trim_start_of(input);
    proof {
        crate::text::lemma_skip_ws_bounds(input@, 0);
    }
    if inp.len() == 0 {
        return (Vec::new(), Vec::new());
    }
    if inp[0] == '"' || inp[0] == '\'' {
        proof {
            lemma_find_char_from_props(inp@, inp@[0], 1);
        }
        match find_char_from_exec(&inp, inp[0], 1) {
            Some(k) => (slice_of(&inp, 1, k), slice_of(&inp, k + 1, inp.len())),
            None => (slice_of(&inp, 1, inp.len()), Vec::new()),
        }
    } else {
        let end = word_end_exec(&inp, 0);
        (slice_of(&inp, 0, end), slice_of(&inp, end, inp.len()))
    }
}

/// `key: value` options of a statement, in order (a later key wins when looked
/// up). Keys are trimmed and ASCII-lowercased; empty keys are dropped.
pub open spec fn options_from(s: Seq<char>) -> Seq<(Seq<char>, Seq<char>)>
    decreases s.len(),
{
    if s.len() == 0 {
        seq![]
    } else {
        match crate::text::find_char(s, ':') {
            None => seq![],
            Some(c) => {
                let key = lower(trim(s.take(c)));
                let (val, after) = option_value(s.skip(c + 1));
                let rest = trim_start(after);
                let tail = if rest.len() < s.len() {
                    options_from(rest)
                } else {
                    seq![]
                };
                if key.len() > 0 {
                    seq![(key, val)] + tail
                } else {
                    tail
                }
            },
        }
    }
}

pub open spec fn spec_parse_options(input: Seq<char>) -> Seq<(Seq<char>, Seq<char>)> {
    options_from(trim(input))
}

/// The value the last option named `key` carries.
pub open spec fn lookup(opts: Seq<(Seq<char>, Seq<char>)>, key: Seq<char>) -> Option<Seq<char>>
    decreases opts.len(),
{
    if opts.len() == 0 {
        None
    } else if opts.last().0 == key {
        Some(opts.last().1)
    } else {
        lookup(opts.drop_last(), key)
    }
}

pub open spec fn pairs_view(v: Seq<(Vec<char>, Vec<char>)>) -> Seq<(Seq<char>, Seq<char>)> {
    v.map_values(|p: (Vec<char>, Vec<char>)| (p.0@, p.1@))
}

fn parse_options(input: &[char]) -> (r: Vec<(Vec<char>, Vec<char>)>)
    ensures
        pairs_view(r@) == spec_parse_options(input@),
{
    let mut rest = trim_of(input);
    let mut r: Vec<(Vec<char>, Vec<char>)> = Vec::new();
    let ghost goal = spec_parse_options(input@);
    while rest.len() > 0
        invariant
            pairs_view(r@) + options_from(rest@) == goal,
            goal == spec_parse_options(input@),
        decreases rest@.len(),
    {
        proof {
            crate::text::lemma_find_char_from_props(rest@, ':', 0);
        }
        let colon = match crate::text::find_char_exec(&rest, ':') {
            Some(c) => c,
            None => {
                proof {
                    assert(options_from(rest@) =~= seq![]);
                    assert(pairs_view(r@) + seq![] =~= pairs_view(r@));
                }
                return r;
            },
        };
        let key = to_lower(&trim_of(&slice_of(&rest, 0, colon)));
        let after_colon = slice_of(&rest, colon + 1, rest.len());
        let (val, after) = option_value_exec(&after_colon);
        let next = trim_start_of(&after);
        proof {
            crate::text::lemma_skip_ws_bounds(after@, 0);
            assert(next@.len() < rest@.len());
        }
        let ghost before = pairs_view(r@);
        if key.len() > 0 {
            r.push((key, val));
            assert(pairs_view(r@) =~= before.push((key@, val@)));
            assert(before + options_from(rest@) =~= pairs_view(r@) + options_from(next@));
        } else {
            assert(options_from(rest@) == options_from(next@));
        }
        rest = next;
    }
    assert(options_from(rest@) =~= seq![]);
    assert(pairs_view(r@) + seq![] =~= pairs_view(r@));
    r
}

fn lookup_exec(opts: &Vec<(Vec<char>, Vec<char>)>, key: &str) -> (r: Option<Vec<char>>)
    ensures
        match r {
            Some(v) => lookup(pairs_view(opts@), key@) == Some(v@),
            None => lookup(pairs_view(opts@), key@) is None,
        },
{
    let k = chars_of(key);
    let mut i = opts.len();
    assert(opts@.take(opts@.len() as int) =~= opts@);
    while i > 0
        invariant
            i <= opts@.len(),
            k@ == key@,
            lookup(pairs_view(opts@), key@) == lookup(pairs_view(opts@.take(i as int)), key@),
        decreases i,
    {
        let ghost pv = pairs_view(opts@.take(i as int));
        assert(pv.drop_last() =~= pairs_view(opts@.take(i - 1)));
        assert(pv.len() == i);
        assert(pv[i - 1] == (opts@[i - 1].0@, opts@[i - 1].1@));
        assert(pv.last() == pv[i - 1]);
        if eq(&opts[i - 1].0, &k) {
            let v = slice_of(&opts[i - 1].1, 0, opts[i - 1].1.len());
            assert(v@ =~= opts@[i - 1].1@);
            assert(lookup(pv, key@) == Some(pv.last().1));
            return Some(v);
        }
        assert(lookup(pv, key@) == lookup(pv.drop_last(), key@));
        i = i - 1;
    }
    assert(pairs_view(opts@.take(0)) =~= seq![]);
    None
}

// ─────────────────────────────────────────────────────────────────────────────
// Statements
// ─────────────────────────────────────────────────────────────────────────────

/// Parser state between statements.
pub struct GraphState {
    pub commits: Seq<CommitView>,
    pub branches: Seq<BranchView>,
    pub current: Seq<char>,
    pub counter: nat,
    pub warnings: Seq<WarningView>,
}

pub open spec fn initial_state() -> GraphState {
    GraphState {
        commits: seq![],
        branches: seq![BranchView { name: "main"@, color_idx: 0, order: None }],
        current: "main"@,
        counter: 0,
        warnings: seq![],
    }
}

/// Index of the first branch named `name`.
pub open spec fn find_branch(bs: Seq<BranchView>, name: Seq<char>, i: int) -> Option<int>
    decreases bs.len() - i,
{
    if i < 0 || i >= bs.len() {
        None
    } else if bs[i].name == name {
        Some(i)
    } else {
        find_branch(bs, name, i + 1)
    }
}

/// Register a branch: an existing one takes a newly given order; a new one is
/// appended with the next color index.
pub open spec fn spec_ensure_branch(bs: Seq<BranchView>, name: Seq<char>, order: Option<u32>) -> Seq<BranchView> {
    match find_branch(bs, name, 0) {
        Some(i) => if order is Some {
            bs.update(i, BranchView { order: order, ..bs[i] })
        } else {
            bs
        },
        None => bs.push(BranchView { name: name, color_idx: bs.len(), order: order }),
    }
}

pub open spec fn warn(st: GraphState, line_no: nat, msg: Seq<char>) -> GraphState {
    GraphState { warnings: st.warnings.push(WarningView { line: line_no, message: msg }), ..st }
}

pub open spec fn plain_commit(id: Seq<char>, branch: Seq<char>) -> CommitView {
    CommitView {
        id,
        branch,
        message: None,
        tag: None,
        kind: GitCommitKind::Normal,
        is_merge: false,
        merge_from: None,
        is_cherry_pick: false,
        cherry_pick_from_id: None,
    }
}

/// Source branch and id of a `merge` statement tail (`n` is the statement's
/// counter, used for the default id `m<n>`).
pub open spec fn merge_parts(rest: Seq<char>, n: nat) -> (Seq<char>, Seq<char>) {
    let dflt = seq!['m'] + decimal(n);
    if contains(lower(rest), "id:"@) {
        match find(rest, "id:"@) {
            Some(p) => {
                let v = option_value(trim(rest.skip(p + 3))).0;
                (spec_strip_quotes(trim(rest.take(p))), if v.len() > 0 { v } else { dflt })
            },
            None => (spec_strip_quotes(trim(rest)), dflt),
        }
    } else {
        (spec_strip_quotes(rest), dflt)
    }
}

/// `commit [id: ..] [msg: ..] [tag: ..] [type: ..]`
pub open spec fn commit_step(st: GraphState, line_no: nat, t: Seq<char>) -> GraphState {
    let n = st.counter + 1;
    let opts = spec_parse_options(spec_trim_after_keyword(t, "commit"@));
    let id = match lookup(opts, "id"@) {
        Some(v) => v,
        None => seq!['c'] + decimal(n),
    };
    let type_raw = lookup(opts, "type"@);
    let kind = match type_raw {
        Some(r) => match spec_commit_kind(r) {
            Some(k) => k,
            None => GitCommitKind::Normal,
        },
        None => GitCommitKind::Normal,
    };
    let st1 = match type_raw {
        Some(r) => if spec_commit_kind(r) is None {
            warn(st, line_no, "Unknown commit type: "@ + r)
        } else {
            st
        },
        None => st,
    };
    GraphState {
        commits: st1.commits.push(CommitView {
            message: lookup(opts, "msg"@),
            tag: lookup(opts, "tag"@),
            kind,
            ..plain_commit(id, st.current)
        }),
        counter: n,
        ..st1
    }
}

/// `branch <name> [order: <n>]`
pub open spec fn branch_step(st: GraphState, line_no: nat, t: Seq<char>) -> GraphState {
    let (name, order) = spec_branch_name_and_order(spec_trim_after_keyword(t, "branch"@));
    if name.len() == 0 {
        warn(st, line_no, "Branch statement missing branch name"@)
    } else {
        GraphState { branches: spec_ensure_branch(st.branches, name, order), current: name, ..st }
    }
}

/// `checkout <name>` / `switch <name>`
pub open spec fn checkout_step(st: GraphState, line_no: nat, t: Seq<char>, keyword: Seq<char>) -> GraphState {
    let name = spec_strip_quotes(spec_trim_after_keyword(t, keyword));
    if name.len() == 0 {
        warn(st, line_no, keyword + " statement missing branch name"@)
    } else {
        GraphState { branches: spec_ensure_branch(st.branches, name, None), current: name, ..st }
    }
}

/// `merge <branch> [id: ..]`
pub open spec fn merge_step(st: GraphState, t: Seq<char>) -> GraphState {
    let n = st.counter + 1;
    let (from, id) = merge_parts(spec_trim_after_keyword(t, "merge"@), n);
    GraphState {
        commits: st.commits.push(CommitView {
            message: Some("Merge "@ + from),
            is_merge: true,
            merge_from: Some(from),
            ..plain_commit(id, st.current)
        }),
        counter: n,
        ..st
    }
}

/// Some commit so far has id `id`.
pub open spec fn has_commit_id(cs: Seq<CommitView>, id: Seq<char>) -> bool {
    exists|i: int| 0 <= i < cs.len() && (#[trigger] cs[i]).id == id
}

/// `cherry-pick id: <id>`
pub open spec fn cherry_pick_step(st: GraphState, line_no: nat, t: Seq<char>, keyword: Seq<char>) -> GraphState {
    let n = st.counter + 1;
    let opts = spec_parse_options(spec_trim_after_keyword(t, keyword));
    let source = match lookup(opts, "id"@) {
        Some(v) => v,
        None => seq![],
    };
    if source.len() == 0 {
        GraphState { counter: n, ..warn(st, line_no, "cherry-pick statement missing id:"@) }
    } else {
        let st1 = if has_commit_id(st.commits, source) {
            st
        } else {
            warn(st, line_no, "cherry-pick references unknown commit id: "@ + source)
        };
        GraphState {
            commits: st1.commits.push(CommitView {
                message: Some("cherry-pick "@ + source),
                is_cherry_pick: true,
                cherry_pick_from_id: Some(source),
                ..plain_commit(seq!['c', 'p'] + decimal(n), st.current)
            }),
            counter: n,
            ..st1
        }
    }
}

/// Effect of one body line (1-indexed `line_no`) on the parser state.
pub open spec fn graph_step(st: GraphState, line_no: nat, line: Seq<char>) -> GraphState {
    let t = trim(line);
    let lo = fold(t);
    if starts_with(lo, "commit"@) {
        commit_step(st, line_no, t)
    } else if starts_with(lo, "branch"@) {
        branch_step(st, line_no, t)
    } else if starts_with(lo, "checkout"@) {
        checkout_step(st, line_no, t, "checkout"@)
    } else if starts_with(lo, "switch"@) {
        checkout_step(st, line_no, t, "switch"@)
    } else if starts_with(lo, "merge"@) {
        merge_step(st, t)
    } else if starts_with(lo, "cherry-pick"@) {
        cherry_pick_step(st, line_no, t, "cherry-pick"@)
    } else if starts_with(lo, "cherrypick"@) {
        cherry_pick_step(st, line_no, t, "cherrypick"@)
    } else {
        warn(st, line_no, "Unknown gitGraph statement: "@ + t)
    }
}

/// A line that carries content: not blank, not a `%%` comment.
pub open spec fn is_content_line(line: Seq<char>) -> bool {
    trim(line).len() > 0 && !starts_with(trim(line), "%%"@)
}

/// Index of the first content line at or after `i`.
pub open spec fn first_content(ls: Seq<Seq<char>>, i: int) -> Option<int>
    decreases ls.len() - i,
{
    if i < 0 || i >= ls.len() {
        None
    } else if is_content_line(ls[i]) {
        Some(i)
    } else {
        first_content(ls, i + 1)
    }
}

/// State after the content lines from index `j` on.
pub open spec fn run_lines(ls: Seq<Seq<char>>, j: int, st: GraphState) -> GraphState
    decreases ls.len() - j,
{
    if j < 0 || j >= ls.len() {
        st
    } else {
        run_lines(
            ls,
            j + 1,
            if is_content_line(ls[j]) {
                graph_step(st, (j + 1) as nat, ls[j])
            } else {
                st
            },
        )
    }
}

/// The message of every parse failure.
pub open spec fn no_commits_msg() -> Seq<char> {
    "No commits found in git graph"@
}

/// Parser state once the whole body (every content line after the header) is read.
pub open spec fn final_state(source: Seq<char>) -> Option<(int, GraphState)> {
    let ls = lines(source);
    match first_content(ls, 0) {
        None => None,
        Some(h) => Some((h, run_lines(ls, h + 1, initial_state()))),
    }
}

/// Number of statements that take a commit number (commit, merge, cherry-pick).
pub open spec fn spec_statement_count(source: Seq<char>) -> nat {
    match final_state(source) {
        None => 0,
        Some((h, st)) => st.counter,
    }
}

/// Parse a git graph: the first content line is the header (orientation), the
/// following content lines are statements. Fails when no commit results.
pub open spec fn spec_parse_git_graph(source: Seq<char>) -> Result<GraphView, Seq<char>> {
    let ls = lines(source);
    match final_state(source) {
        None => Err(no_commits_msg()),
        Some((h, st)) => if st.commits.len() == 0 {
            Err(no_commits_msg())
        } else {
            Ok(GraphView {
                orientation: spec_parse_orientation(ls[h]),
                commits: st.commits,
                branches: st.branches,
                warnings: st.warnings,
            })
        },
    }
}

// ─────────────────────────────────────────────────────────────────────────────
// Executable parser
// ─────────────────────────────────────────────────────────────────────────────

struct ExecState {
    commits: Vec<GitCommit>,
    branches: Vec<GitBranch>,
    current: Vec<char>,
    counter: u32,
    warnings: Vec<GitGraphWarning>,
}

spec fn state_view(s: ExecState) -> GraphState {
    GraphState {
        commits: commits_view(s.commits@),
        branches: branches_view(s.branches@),
        current: s.current@,
        counter: s.counter as nat,
        warnings: warnings_view(s.warnings@),
    }
}

fn opt_string(o: Option<Vec<char>>) -> (r: Option<String>)
    ensures
        opt_view(r) == (match o {
            Some(v) => Some(v@),
            None => None::<Seq<char>>,
        }),
{
    match o {
        Some(v) => Some(string_of(&v)),
        None => None,
    }
}

fn push_warning(st: &mut ExecState, line_no: usize, msg: &[char])
    ensures
        state_view(*final(st)) == warn(state_view(*old(st)), line_no as nat, msg@),
{
    let ghost before = state_view(*st);
    st.warnings.push(GitGraphWarning { line: line_no, message: string_of(msg) });
    assert(warnings_view(st.warnings@) =~= before.warnings.push(WarningView { line: line_no as nat, message: msg@ }));
    assert(state_view(*st) =~= warn(before, line_no as nat, msg@));
}

fn with_prefix(prefix: &str, rest: &[char]) -> (r: Vec<char>)
    ensures
        r@ == prefix@ + rest@,
{
    let mut v = chars_of(prefix);
    append(&mut v, rest);
    v
}

fn numbered(prefix: &str, n: u32) -> (r: Vec<char>)
    ensures
        r@ == prefix@ + decimal(n as nat),
{
    with_prefix(prefix, &decimal_exec(n as u64))
}

fn find_branch_exec(bs: &Vec<GitBranch>, name: &[char]) -> (r: Option<usize>)
    ensures
        match r {
            Some(i) => find_branch(branches_view(bs@), name@, 0) == Some(i as int) && i < bs@.len(),
            None => find_branch(branches_view(bs@), name@, 0) is None,
        },
{
    let ghost bv = branches_view(bs@);
    let mut i: usize = 0;
    while i < bs.len()
        invariant
            i <= bs@.len(),
            bv == branches_view(bs@),
            find_branch(bv, name@, i as int) == find_branch(bv, name@, 0),
        decreases bs@.len() - i,
    {
        assert(bv[i as int].name == bs@[i as int].name@);
        if eq(&chars_of(bs[i].name.as_str()), name) {
            return Some(i);
        }
        i = i + 1;
    }
    None
}

fn ensure_branch(bs: &mut Vec<GitBranch>, name: &[char], order: Option<u32>)
    ensures
        branches_view(final(bs)@) == spec_ensure_branch(branches_view(old(bs)@), name@, order),
{
    let ghost before = branches_view(bs@);
    match find_branch_exec(bs, name) {
        Some(i) => {
            if order.is_some() {
                let b = GitBranch { name: bs[i].name.clone(), color_idx: bs[i].color_idx, order };
                bs.set(i, b);
                assert(branches_view(bs@) =~= before.update(i as int, BranchView { order: order, ..before[i as int] }));
            }
        },
        None => {
            let b = GitBranch { name: string_of(name), color_idx: bs.len(), order };
            bs.push(b);
            assert(branches_view(bs@) =~= before.push(BranchView { name: name@, color_idx: before.len(), order: order }));
        },
    }
}

fn has_commit_id_exec(cs: &Vec<GitCommit>, id: &[char]) -> (r: bool)
    ensures
        r == has_commit_id(commits_view(cs@), id@),
{
    let ghost cv = commits_view(cs@);
    let mut i: usize = 0;
    while i < cs.len()
        invariant
            i <= cs@.len(),
            cv == commits_view(cs@),
            forall|j: int| 0 <= j < i ==> (#[trigger] cv[j]).id != id@,
        decreases cs@.len() - i,
    {
        assert(cv[i as int].id == cs@[i as int].id@);
        if eq(&chars_of(cs[i].id.as_str()), id) {
            return true;
        }
        i = i + 1;
    }
    false
}

fn push_commit(st: &mut ExecState, c: GitCommit)
    ensures
        state_view(*final(st)) == (GraphState { commits: state_view(*old(st)).commits.push(commit_view(c)), ..state_view(*old(st)) }),
{
    let ghost before = state_view(*st);
    st.commits.push(c);
    assert(commits_view(st.commits@) =~= before.commits.push(commit_view(c)));
}

fn commit_exec(st: &mut ExecState, line_no: usize, t: &[char])
    requires
        old(st).counter < u32::MAX,
    ensures
        state_view(*final(st)) == commit_step(state_view(*old(st)), line_no as nat, t@),
{
    let ghost before = state_view(*st);
    let n = st.counter + 1;
    let opts = parse_options(&trim_after_keyword(t, "commit"));
    let id = match lookup_exec(&opts, "id") {
        Some(v) => v,
        None => numbered("c", n),
    };
    proof {
        reveal_strlit("c");
        assert(("c"@ + decimal(n as nat)) =~= seq!['c'] + decimal(n as nat));
    }
    let type_raw = lookup_exec(&opts, "type");
    let kind = match &type_raw {
        Some(r) => match parse_kind_chars(r) {
            Some(k) => k,
            None => GitCommitKind::Normal,
        },
        None => GitCommitKind::Normal,
    };
    match &type_raw {
        Some(r) => {
            if parse_kind_chars(r).is_none() {
                push_warning(st, line_no, &with_prefix("Unknown commit type: ", r));
            }
        },
        None => {},
    }
    let message = opt_string(lookup_exec(&opts, "msg"));
    let tag = opt_string(lookup_exec(&opts, "tag"));
    let c = GitCommit {
        id: string_of(&id),
        branch: string_of(&st.current),
        message,
        tag,
        kind,
        is_merge: false,
        merge_from: None,
        is_cherry_pick: false,
        cherry_pick_from_id: None,
    };
    push_commit(st, c);
    st.counter = n;
    assert(state_view(*st) =~= commit_step(before, line_no as nat, t@));
}

fn branch_exec(st: &mut ExecState, line_no: usize, t: &[char])
    ensures
        state_view(*final(st)) == branch_step(state_view(*old(st)), line_no as nat, t@),
{
    let ghost before = state_view(*st);
    let (name, order) = branch_name_and_order(&trim_after_keyword(t, "branch"));
    if name.len() == 0 {
        push_warning(st, line_no, &chars_of("Branch statement missing branch name"));
        return;
    }
    ensure_branch(&mut st.branches, &name, order);
    st.current = name;
    assert(state_view(*st) =~= branch_step(before, line_no as nat, t@));
}

fn checkout_exec(st: &mut ExecState, line_no: usize, t: &[char], keyword: &str)
    ensures
        state_view(*final(st)) == checkout_step(state_view(*old(st)), line_no as nat, t@, keyword@),
{
    let ghost before = state_view(*st);
    let name = strip_quotes(&trim_after_keyword(t, keyword));
    if name.len() == 0 {
        let mut msg = chars_of(keyword);
        append(&mut msg, &chars_of(" statement missing branch name"));
        push_warning(st, line_no, &msg);
        return;
    }
    ensure_branch(&mut st.branches, &name, None);
    st.current = name;
    assert(state_view(*st) =~= checkout_step(before, line_no as nat, t@, keyword@));
}

fn merge_parts_exec(rest: &[char], n: u32) -> (r: (Vec<char>, Vec<char>))
    ensures
        (r.0@, r.1@) == merge_parts(rest@, n as nat),
{
    let dflt = numbered("m", n);
    proof {
        reveal_strlit("m");
        assert(("m"@ + decimal(n as nat)) =~= seq!['m'] + decimal(n as nat));
        reveal_strlit("id:");
    }
    let pat = chars_of("id:");
    if contains_exec(&to_lower(rest), &pat) {
        match find_exec(rest, &pat) {
            Some(p) => {
                proof {
                    lemma_find_from_props(rest@, pat@, 0);
                }
                let len = rest.len();
                let after = trim_of(&slice_of(rest, p + 3, len));
                let (v, _) = option_value_exec(&after);
                let from = strip_quotes(&trim_of(&slice_of(rest, 0, p)));
                if v.len() > 0 {
                    (from, v)
                } else {
                    (from, dflt)
                }
            },
            None => (strip_quotes(&trim_of(rest)), dflt),
        }
    } else {
        (strip_quotes(rest), dflt)
    }
}

fn merge_exec(st: &mut ExecState, t: &[char])
    requires
        old(st).counter < u32::MAX,
    ensures
        state_view(*final(st)) == merge_step(state_view(*old(st)), t@),
{
    let ghost before = state_view(*st);
    let n = st.counter + 1;
    let (from, id) = merge_parts_exec(&trim_after_keyword(t, "merge"), n);
    let c = GitCommit {
        id: string_of(&id),
        branch: string_of(&st.current),
        message: Some(string_of(&with_prefix("Merge ", &from))),
        tag: None,
        kind: GitCommitKind::Normal,
        is_merge: true,
        merge_from: Some(string_of(&from)),
        is_cherry_pick: false,
        cherry_pick_from_id: None,
    };
    push_commit(st, c);
    st.counter = n;
    assert(state_view(*st) =~= merge_step(before, t@));
}

fn cherry_pick_exec(st: &mut ExecState, line_no: usize, t: &[char], keyword: &str)
    requires
        old(st).counter < u32::MAX,
    ensures
        state_view(*final(st)) == cherry_pick_step(state_view(*old(st)), line_no as nat, t@, keyword@),
{
    let ghost before = state_view(*st);
    let n = st.counter + 1;
    let opts = parse_options(&trim_after_keyword(t, keyword));
    let source = match lookup_exec(&opts, "id") {
        Some(v) => v,
        None => Vec::new(),
    };
    if source.len() == 0 {
        push_warning(st, line_no, &chars_of("cherry-pick statement missing id:"));
        st.counter = n;
        assert(state_view(*st) =~= cherry_pick_step(before, line_no as nat, t@, keyword@));
        return;
    }
    if !has_commit_id_exec(&st.commits, &source) {
        push_warning(st, line_no, &with_prefix("cherry-pick references unknown commit id: ", &source));
    }
    let id = numbered("cp", n);
    proof {
        reveal_strlit("cp");
        assert(("cp"@ + decimal(n as nat)) =~= seq!['c', 'p'] + decimal(n as nat));
    }
    let c = GitCommit {
        id: string_of(&id),
        branch: string_of(&st.current),
        message: Some(string_of(&with_prefix("cherry-pick ", &source))),
        tag: None,
        kind: GitCommitKind::Normal,
        is_merge: false,
        merge_from: None,
        is_cherry_pick: true,
        cherry_pick_from_id: Some(string_of(&source)),
    };
    push_commit(st, c);
    st.counter = n;
    assert(state_view(*st) =~= cherry_pick_step(before, line_no as nat, t@, keyword@));
}

fn step_exec(st: &mut ExecState, line_no: usize, line: &[char])
    requires
        graph_step(state_view(*old(st)), line_no as nat, line@).counter <= u32::MAX,
    ensures
        state_view(*final(st)) == graph_step(state_view(*old(st)), line_no as nat, line@),
{
    let t = trim_of(line);
    let lo = to_fold(&t);
    if starts_with_exec(&lo, &chars_of("commit")) {
        commit_exec(st, line_no, &t);
    } else if starts_with_exec(&lo, &chars_of("branch")) {
        branch_exec(st, line_no, &t);
    } else if starts_with_exec(&lo, &chars_of("checkout")) {
        checkout_exec(st, line_no, &t, "checkout");
    } else if starts_with_exec(&lo, &chars_of("switch")) {
        checkout_exec(st, line_no, &t, "switch");
    } else if starts_with_exec(&lo, &chars_of("merge")) {
        merge_exec(st, &t);
    } else if starts_with_exec(&lo, &chars_of("cherry-pick")) {
        cherry_pick_exec(st, line_no, &t, "cherry-pick");
    } else if starts_with_exec(&lo, &chars_of("cherrypick")) {
        cherry_pick_exec(st, line_no, &t, "cherrypick");
    } else {
        push_warning(st, line_no, &with_prefix("Unknown gitGraph statement: ", &t));
    }
}

fn is_content_exec(line: &[char]) -> (r: bool)
    ensures
        r == is_content_line(line@),
{
    let t = trim_of(line);
    t.len() > 0 && !starts_with_exec(&t, &chars_of("%%"))
}

proof fn lemma_run_lines_counter(ls: Seq<Seq<char>>, j: int, st: GraphState)
    ensures
        run_lines(ls, j, st).counter >= st.counter,
    decreases ls.len() - j,
{
    if 0 <= j < ls.len() {
        let st2 = if is_content_line(ls[j]) {
            graph_step(st, (j + 1) as nat, ls[j])
        } else {
            st
        };
        lemma_run_lines_counter(ls, j + 1, st2);
    }
}

/// A content line that takes a statement number: `commit`, `merge`,
/// `cherry-pick` or `cherrypick` (in any case).
pub open spec fn counts_statement(line: Seq<char>) -> bool {
    let lo = fold(trim(line));
    &&& is_content_line(line)
    &&& starts_with(lo, "commit"@) || starts_with(lo, "merge"@) || starts_with(lo, "cherry-pick"@)
        || starts_with(lo, "cherrypick"@)
}

/// Numbered statements among the lines from index `j` on.
pub open spec fn counted_from(ls: Seq<Seq<char>>, j: int) -> nat
    decreases ls.len() - j,
{
    if j < 0 || j >= ls.len() {
        0
    } else {
        (if counts_statement(ls[j]) { 1nat } else { 0nat }) + counted_from(ls, j + 1)
    }
}

proof fn lemma_graph_step_counter(st: GraphState, line_no: nat, line: Seq<char>)
    requires
        is_content_line(line),
    ensures
        graph_step(st, line_no, line).counter == st.counter + if counts_statement(line) { 1nat } else { 0nat },
{
    reveal_strlit("commit");
    reveal_strlit("branch");
    reveal_strlit("checkout");
    reveal_strlit("switch");
    reveal_strlit("merge");
    reveal_strlit("cherry-pick");
    reveal_strlit("cherrypick");
    let lo = fold(trim(line));
    if starts_with(lo, "cherry-pick"@) || starts_with(lo, "cherrypick"@) || starts_with(lo, "merge"@) || starts_with(lo, "commit"@) {
        if starts_with(lo, "cherry-pick"@) {
            assert(lo.take(11)[3] == lo[3] && lo.take(11)[0] == lo[0]);
        }
        if starts_with(lo, "cherrypick"@) {
            assert(lo.take(10)[3] == lo[3] && lo.take(10)[0] == lo[0]);
        }
        if starts_with(lo, "merge"@) {
            assert(lo.take(5)[0] == lo[0]);
        }
        if starts_with(lo, "commit"@) {
            assert(lo.take(6)[0] == lo[0] && lo.take(6)[1] == lo[1]);
        }
        if starts_with(lo, "branch"@) {
            assert(lo.take(6)[0] == lo[0]);
        }
        if starts_with(lo, "checkout"@) {
            assert(lo.take(8)[3] == lo[3] && lo.take(8)[0] == lo[0] && lo.take(8)[1] == lo[1]);
        }
        if starts_with(lo, "switch"@) {
            assert(lo.take(6)[0] == lo[0]);
        }
    }
}

proof fn lemma_run_lines_count(ls: Seq<Seq<char>>, j: int, st: GraphState)
    requires
        0 <= j,
    ensures
        run_lines(ls, j, st).counter == st.counter + counted_from(ls, j),
    decreases ls.len() - j,
{
    if j < ls.len() {
        let st2 = if is_content_line(ls[j]) {
            lemma_graph_step_counter(st, (j + 1) as nat, ls[j]);
            graph_step(st, (j + 1) as nat, ls[j])
        } else {
            st
        };
        lemma_run_lines_count(ls, j + 1, st2);
    }
}

fn counts_statement_exec(line: &[char]) -> (r: bool)
    ensures
        r == counts_statement(line@),
{
    let t = trim_of(line);
    let lo = to_fold(&t);
    is_content_exec(line) && (starts_with_exec(&lo, &chars_of("commit")) || starts_with_exec(&lo, &chars_of("merge"))
        || starts_with_exec(&lo, &chars_of("cherry-pick")) || starts_with_exec(&lo, &chars_of("cherrypick")))
}

/// How many statements of `source` take a statement number (what
/// [`parse_git_graph`] needs to stay within `u32::MAX`).
pub fn git_statement_count(source: &str) -> (r: usize)
    ensures
        r as nat == spec_statement_count(source@),
{
    let ls = lines_of(&chars_of(source));
    let ghost l = lines(source@);
    let mut h: usize = 0;
    while h < ls.len() && !is_content_exec(&ls[h])
        invariant
            h <= ls@.len(),
            l == ls.deep_view(),
            first_content(l, h as int) == first_content(l, 0),
        decreases ls@.len() - h,
    {
        assert(l[h as int] == ls@[h as int]@);
        h = h + 1;
    }
    if h >= ls.len() {
        assert(first_content(l, 0) is None);
        return 0;
    }
    assert(l[h as int] == ls@[h as int]@);
    assert(first_content(l, h as int) == Some(h as int));
    proof {
        lemma_run_lines_count(l, h + 1, initial_state());
    }
    let mut cnt: usize = 0;
    let mut j = h + 1;
    while j < ls.len()
        invariant
            h < j <= ls@.len(),
            l == ls.deep_view(),
            cnt <= j,
            cnt + counted_from(l, j as int) == counted_from(l, h + 1),
        decreases ls@.len() - j,
    {
        assert(l[j as int] == ls@[j as int]@);
        if counts_statement_exec(&ls[j]) {
            cnt = cnt + 1;
        }
        j = j + 1;
    }
    cnt
}

/// Parse a git graph from source (see [`spec_parse_git_graph`]).
pub fn parse_git_graph(source: &str) -> (r: Result<GitGraph, String>)
    requires
        spec_statement_count(source@) <= u32::MAX,
    ensures
        match r {
            Ok(g) => spec_parse_git_graph(source@) == Ok::<GraphView, Seq<char>>(graph_view(g)),
            Err(e) => spec_parse_git_graph(source@) == Err::<GraphView, Seq<char>>(e@),
        },
{
    let ls = lines_of(&chars_of(source));
    let ghost l = lines(source@);
    let mut h: usize = 0;
    while h < ls.len() && !is_content_exec(&ls[h])
        invariant
            h <= ls@.len(),
            l == ls.deep_view(),
            first_content(l, h as int) == first_content(l, 0),
        decreases ls@.len() - h,
    {
        assert(l[h as int] == ls@[h as int]@);
        h = h + 1;
    }
    if h >= ls.len() {
        assert(first_content(l, 0) is None);
        return Err("No commits found in git graph".to_owned());
    }
    assert(l[h as int] == ls@[h as int]@);
    assert(first_content(l, h as int) == Some(h as int));
    let orientation = parse_orientation(&ls[h]);
    let mut st = ExecState {
        commits: Vec::new(),
        branches: Vec::new(),
        current: chars_of("main"),
        counter: 0,
        warnings: Vec::new(),
    };
    let main_branch = GitBranch { name: "main".to_owned(), color_idx: 0, order: None };
    st.branches.push(main_branch);
    assert(st.branches@ =~= seq![main_branch]);
    assert(branches_view(st.branches@) =~= seq![BranchView { name: "main"@, color_idx: 0, order: None }]);
    assert(commits_view(st.commits@) =~= seq![]);
    assert(warnings_view(st.warnings@) =~= seq![]);
    assert(state_view(st) =~= initial_state());
    let ghost fin = run_lines(l, h + 1, initial_state());
    let mut j = h + 1;
    while j < ls.len()
        invariant
            h < j <= ls@.len(),
            l == ls.deep_view(),
            run_lines(l, j as int, state_view(st)) == fin,
            fin.counter <= u32::MAX,
        decreases ls@.len() - j,
    {
        assert(l[j as int] == ls@[j as int]@);
        if is_content_exec(&ls[j]) {
            proof {
                lemma_run_lines_counter(l, j + 1, graph_step(state_view(st), (j + 1) as nat, l[j as int]));
            }
            step_exec(&mut st, j + 1, &ls[j]);
        }
        j = j + 1;
    }
    if st.commits.len() == 0 {
        return Err("No commits found in git graph".to_owned());
    }
    let g = GitGraph { orientation, commits: st.commits, branches: st.branches, warnings: st.warnings };
    assert(graph_view(g) =~= GraphView {
        orientation: spec_parse_orientation(l[h as int]),
        commits: fin.commits,
        branches: fin.branches,
        warnings: fin.warnings,
    });
    Ok(g)
}

// ─────────────────────────────────────────────────────────────────────────────
// Lane assignment
// ─────────────────────────────────────────────────────────────────────────────

/// The lane a branch is drawn in.
#[derive(Debug, Clone)]
pub struct BranchLane {
    pub name: String,
    pub lane: usize,
}

/// Largest element of `s` (0 for an empty sequence).
pub open spec fn seq_max(s: Seq<int>) -> int
    decreases s.len(),
{
    if s.len() == 0 {
        0
    } else {
        let m = seq_max(s.drop_last());
        if s.last() > m { s.last() } else { m }
    }
}

/// The least lane at or above `k`, below `bound`, that `occ` does not hold
/// (`bound` when there is none).
pub open spec fn free_search(occ: Seq<int>, k: int, bound: int) -> int
    decreases bound - k,
{
    if k >= bound || !occ.contains(k) {
        k
    } else {
        free_search(occ, k + 1, bound)
    }
}

/// The least lane at or above `k` that `occ` does not hold.
pub open spec fn least_free(occ: Seq<int>, k: int) -> int {
    free_search(occ, k, seq_max(occ) + 1)
}

/// First pass: lanes fixed by `order:` (a later order for the same name wins),
/// and every ordered lane marked occupied.
pub open spec fn ordered_pass(bs: Seq<BranchView>, i: int) -> (Map<Seq<char>, int>, Seq<int>)
    decreases i,
{
    if i <= 0 || i > bs.len() {
        (Map::empty(), seq![])
    } else {
        let (m, occ) = ordered_pass(bs, i - 1);
        match bs[i - 1].order {
            Some(o) => (m.insert(bs[i - 1].name, o as int), occ.push(o as int)),
            None => (m, occ),
        }
    }
}

/// Second pass from branch `i` on: each branch without a lane takes the least
/// free lane at or above `next`.
pub open spec fn fill_pass(bs: Seq<BranchView>, i: int, m: Map<Seq<char>, int>, occ: Seq<int>, next: int) -> Map<Seq<char>, int>
    decreases bs.len() - i,
{
    if i < 0 || i >= bs.len() {
        m
    } else if m.contains_key(bs[i].name) {
        fill_pass(bs, i + 1, m, occ, next)
    } else {
        let f = least_free(occ, next);
        fill_pass(bs, i + 1, m.insert(bs[i].name, f), occ.push(f), f + 1)
    }
}

/// Lane of every branch: explicit `order:` values first, then the others in
/// declaration order into the lowest free lanes.
pub open spec fn spec_assign_branch_lanes(bs: Seq<BranchView>) -> Map<Seq<char>, int> {
    let (m, occ) = ordered_pass(bs, bs.len() as int);
    fill_pass(bs, 0, m, occ, 0)
}

/// The lanes as a map from branch name, for lanes with distinct names.
pub open spec fn lanes_map(es: Seq<BranchLane>) -> Map<Seq<char>, int> {
    Map::new(
        |n: Seq<char>| exists|i: int| 0 <= i < es.len() && (#[trigger] es[i]).name@ == n,
        |n: Seq<char>| es[choose|i: int| 0 <= i < es.len() && (#[trigger] es[i]).name@ == n].lane as int,
    )
}

pub open spec fn names_unique(es: Seq<BranchLane>) -> bool {
    forall|i: int, j: int| 0 <= i < j < es.len() ==> (#[trigger] es[i]).name@ != (#[trigger] es[j]).name@
}

fn find_lane_entry(es: &Vec<BranchLane>, name: &[char]) -> (r: Option<usize>)
    ensures
        match r {
            Some(i) => i < es@.len() && es@[i as int].name@ == name@,
            None => forall|i: int| 0 <= i < es@.len() ==> (#[trigger] es@[i]).name@ != name@,
        },
{
    let mut i: usize = 0;
    while i < es.len()
        invariant
            i <= es@.len(),
            forall|j: int| 0 <= j < i ==> (#[trigger] es@[j]).name@ != name@,
        decreases es@.len() - i,
    {
        if eq(&chars_of(es[i].name.as_str()), name) {
            return Some(i);
        }
        i = i + 1;
    }
    None
}

fn set_lane(es: &mut Vec<BranchLane>, name: &[char], lane: usize)
    requires
        names_unique(old(es)@),
    ensures
        names_unique(final(es)@),
        lanes_map(final(es)@) == lanes_map(old(es)@).insert(name@, lane as int),
{
    let ghost before = es@;
    match find_lane_entry(es, name) {
        Some(i) => {
            let e = BranchLane { name: es[i].name.clone(), lane };
            es.set(i, e);
            proof {
                assert forall|n: Seq<char>| #![auto] lanes_map(es@).contains_key(n) == lanes_map(before).insert(name@, lane as int).contains_key(n) by {
                    if lanes_map(before).contains_key(n) {
                        let j = choose|j: int| 0 <= j < before.len() && (#[trigger] before[j]).name@ == n;
                        assert(es@[j].name@ == n);
                    }
                    if lanes_map(es@).contains_key(n) {
                        let j = choose|j: int| 0 <= j < es@.len() && (#[trigger] es@[j]).name@ == n;
                        assert(before[j].name@ == n);
                    }
                }
                assert forall|n: Seq<char>| #[trigger] lanes_map(es@).contains_key(n) implies lanes_map(es@)[n] == lanes_map(before).insert(name@, lane as int)[n] by {
                    let j = choose|j: int| 0 <= j < es@.len() && (#[trigger] es@[j]).name@ == n;
                    if n == name@ {
                        assert(j == i);
                    } else {
                        let k = choose|k: int| 0 <= k < before.len() && (#[trigger] before[k]).name@ == n;
                        assert(before[j].name@ == n);
                        assert(j == k);
                    }
                }
                assert(lanes_map(es@) =~= lanes_map(before).insert(name@, lane as int));
            }
        },
        None => {
            let e = BranchLane { name: string_of(name), lane };
            es.push(e);
            proof {
                assert forall|n: Seq<char>| #![auto] lanes_map(es@).contains_key(n) == lanes_map(before).insert(name@, lane as int).contains_key(n) by {
                    if lanes_map(before).contains_key(n) {
                        let j = choose|j: int| 0 <= j < before.len() && (#[trigger] before[j]).name@ == n;
                        assert(es@[j].name@ == n);
                    }
                    if n == name@ {
                        assert(es@[before.len() as int].name@ == n);
                    }
                    if lanes_map(es@).contains_key(n) && n != name@ {
                        let j = choose|j: int| 0 <= j < es@.len() && (#[trigger] es@[j]).name@ == n;
                        assert(before[j].name@ == n);
                    }
                }
                assert forall|n: Seq<char>| #[trigger] lanes_map(es@).contains_key(n) implies lanes_map(es@)[n] == lanes_map(before).insert(name@, lane as int)[n] by {
                    let j = choose|j: int| 0 <= j < es@.len() && (#[trigger] es@[j]).name@ == n;
                    if n == name@ {
                        assert(j == before.len());
                    } else {
                        let k = choose|k: int| 0 <= k < before.len() && (#[trigger] before[k]).name@ == n;
                        assert(before[j].name@ == n);
                        assert(j == k);
                    }
                }
                assert(lanes_map(es@) =~= lanes_map(before).insert(name@, lane as int));
            }
        },
    }
}

fn contains_lane(occ: &Vec<usize>, k: usize) -> (r: bool)
    ensures
        r == occ@.map_values(|x: usize| x as int).contains(k as int),
{
    let ghost o = occ@.map_values(|x: usize| x as int);
    let mut i: usize = 0;
    while i < occ.len()
        invariant
            i <= occ@.len(),
            o == occ@.map_values(|x: usize| x as int),
            forall|j: int| 0 <= j < i ==> o[j] != k as int,
        decreases occ@.len() - i,
    {
        if occ[i] == k {
            assert(o[i as int] == k as int);
            return true;
        }
        i = i + 1;
    }
    false
}

pub open spec fn occ_view(occ: Seq<usize>) -> Seq<int> {
    occ.map_values(|x: usize| x as int)
}

proof fn lemma_seq_max(s: Seq<int>)
    ensures
        forall|i: int| 0 <= i < s.len() ==> s[i] <= seq_max(s),
        seq_max(s) >= 0 || s.len() == 0,
        s.len() == 0 ==> seq_max(s) == 0,
    decreases s.len(),
{
    if s.len() > 0 {
        lemma_seq_max(s.drop_last());
        assert forall|i: int| 0 <= i < s.len() implies s[i] <= seq_max(s) by {
            if i < s.len() - 1 {
                assert(s[i] == s.drop_last()[i]);
            }
        }
    }
}

proof fn lemma_free_search(occ: Seq<int>, k: int, bound: int)
    requires
        forall|i: int| 0 <= i < occ.len() ==> occ[i] < bound,
    ensures
        free_search(occ, k, bound) >= k,
        !occ.contains(free_search(occ, k, bound)),
        free_search(occ, k, bound) <= if k > bound { k } else { bound },
    decreases bound - k,
{
    if k >= bound {
        if occ.contains(k) {
            let j = choose|j: int| 0 <= j < occ.len() && occ[j] == k;
            assert(occ[j] < bound);
        }
    } else if occ.contains(k) {
        lemma_free_search(occ, k + 1, bound);
    }
}

/// Pigeonhole: when every lane below `m` is taken, `occ` holds at least `m`
/// entries.
proof fn lemma_taken_prefix(occ: Seq<int>, m: int)
    requires
        0 <= m,
        forall|v: int| 0 <= v < m ==> occ.contains(v),
    ensures
        m <= occ.len(),
{
    vstd::set_lib::lemma_int_range(0, m);
    occ.lemma_cardinality_of_set();
    vstd::seq_lib::seq_to_set_is_finite(occ);
    assert forall|v: int| vstd::set_lib::set_int_range(0, m).contains(v) implies occ.to_set().contains(v) by {
        assert(occ.contains(v));
    }
    vstd::set_lib::lemma_len_subset(vstd::set_lib::set_int_range(0, m), occ.to_set());
}

fn least_free_exec(occ: &Vec<usize>, k: usize, bound: Ghost<int>) -> (r: usize)
    requires
        bound@ == seq_max(occ_view(occ@)) + 1,
        forall|v: int| 0 <= v < k ==> occ_view(occ@).contains(v),
    ensures
        r as int == least_free(occ_view(occ@), k as int),
        forall|v: int| 0 <= v < r ==> occ_view(occ@).contains(v),
        r <= occ@.len(),
{
    let ghost o = occ_view(occ@);
    proof {
        lemma_seq_max(o);
        lemma_free_search(o, k as int, bound@);
        lemma_taken_prefix(o, k as int);
    }
    let mut f = k;
    let occ_len = occ.len();
    while contains_lane(occ, f)
        invariant
            o == occ_view(occ@),
            o.len() == occ@.len(),
            occ_len == occ@.len(),
            bound@ == seq_max(o) + 1,
            forall|i: int| 0 <= i < o.len() ==> o[i] < bound@,
            free_search(o, f as int, bound@) == free_search(o, k as int, bound@),
            forall|v: int| 0 <= v < f ==> o.contains(v),
            f <= o.len(),
        decreases o.len() - f,
    {
        proof {
            if f as int >= bound@ {
                lemma_free_search(o, f as int, bound@);
            }
            assert forall|v: int| 0 <= v < f + 1 implies o.contains(v) by {
                if v == f {
                    assert(o == occ@.map_values(|x: usize| x as int));
                }
            }
            lemma_taken_prefix(o, f + 1);
        }
        f = f + 1;
    }
    assert(o == occ@.map_values(|x: usize| x as int));
    f
}

/// Assign lane indices: explicit `order:` values take their lane, then the
/// other branches in declaration order take the lowest free lanes.
pub fn assign_branch_lanes(branches: &[GitBranch]) -> (r: Vec<BranchLane>)
    ensures
        names_unique(r@),
        lanes_map(r@) == spec_assign_branch_lanes(branches_view(branches@)),
{
    let ghost bs = branches_view(branches@);
    let mut lanes: Vec<BranchLane> = Vec::new();
    let mut occ: Vec<usize> = Vec::new();
    let mut i: usize = 0;
    assert(lanes_map(lanes@) =~= Map::empty());
    while i < branches.len()
        invariant
            i <= branches@.len(),
            bs == branches_view(branches@),
            names_unique(lanes@),
            (lanes_map(lanes@), occ_view(occ@)) == ordered_pass(bs, i as int),
            occ@.len() <= i,
        decreases branches@.len() - i,
    {
        match branches[i].order {
            Some(o) => {
                let name = chars_of(branches[i].name.as_str());
                set_lane(&mut lanes, &name, o as usize);
                let ghost before = occ_view(occ@);
                occ.push(o as usize);
                assert(occ_view(occ@) =~= before.push(o as int));
            },
            None => {},
        }
        i = i + 1;
    }
    let ghost m0 = lanes_map(lanes@);
    let ghost o0 = occ_view(occ@);
    let mut next: usize = 0;
    let mut k: usize = 0;
    proof {
        lemma_seq_max(occ_view(occ@));
    }
    while k < branches.len()
        invariant
            k <= branches@.len(),
            bs == branches_view(branches@),
            names_unique(lanes@),
            fill_pass(bs, k as int, lanes_map(lanes@), occ_view(occ@), next as int) == fill_pass(bs, 0, m0, o0, 0),
            next as int <= seq_max(occ_view(occ@)) + 1,
            forall|v: int| 0 <= v < next ==> occ_view(occ@).contains(v),
        decreases branches@.len() - k,
    {
        let name = chars_of(branches[k].name.as_str());
        assert(bs[k as int].name == branches@[k as int].name@);
        let found = find_lane_entry(&lanes, &name);
        proof {
            if found is Some {
                assert(lanes_map(lanes@).contains_key(name@));
            } else {
                assert(!lanes_map(lanes@).contains_key(name@));
            }
        }
        if found.is_none() {
            let ghost bound = seq_max(occ_view(occ@)) + 1;
            let f = least_free_exec(&occ, next, Ghost(bound));
            proof {
                lemma_seq_max(occ_view(occ@));
                lemma_free_search(occ_view(occ@), next as int, bound);
            }
            set_lane(&mut lanes, &name, f);
            let ghost before = occ_view(occ@);
            occ.push(f);
            let occ_len = occ.len();
            assert(occ_view(occ@) =~= before.push(f as int));
            proof {
                lemma_seq_max(occ_view(occ@));
                assert(occ_view(occ@).drop_last() =~= before);
                assert(seq_max(occ_view(occ@)) == if f as int > seq_max(before) { f as int } else { seq_max(before) });
                assert forall|v: int| 0 <= v < f + 1 implies occ_view(occ@).contains(v) by {
                    if v < f {
                        assert(before.contains(v));
                        let j = choose|j: int| 0 <= j < before.len() && before[j] == v;
                        assert(occ_view(occ@)[j] == v);
                    } else {
                        assert(occ_view(occ@)[before.len() as int] == f as int);
                    }
                }
            }
            next = f + 1;
        }
        k = k + 1;
    }
    lanes
}

/// The lane assigned to the branch named `name`, if any.
pub fn lane_of(lanes: &Vec<BranchLane>, name: &str) -> (r: Option<usize>)
    requires
        names_unique(lanes@),
    ensures
        match r {
            Some(l) => lanes_map(lanes@).contains_key(name@) && lanes_map(lanes@)[name@] == l as int,
            None => !lanes_map(lanes@).contains_key(name@),
        },
{
    match find_lane_entry(lanes, &chars_of(name)) {
        Some(i) => {
            proof {
                let j = choose|j: int| 0 <= j < lanes@.len() && (#[trigger] lanes@[j]).name@ == name@;
                assert(lanes@[i as int].name@ == name@);
                assert(j == i);
            }
            Some(lanes[i].lane)
        },
        None => None,
    }
}

// ─────────────────────────────────────────────────────────────────────────────
// Laws of lane assignment
// ─────────────────────────────────────────────────────────────────────────────

proof fn lemma_fill_keeps(bs: Seq<BranchView>, i: int, m: Map<Seq<char>, int>, occ: Seq<int>, next: int, n: Seq<char>)
    requires
        m.contains_key(n),
    ensures
        fill_pass(bs, i, m, occ, next).contains_key(n),
        fill_pass(bs, i, m, occ, next)[n] == m[n],
    decreases bs.len() - i,
{
    if i < 0 || i >= bs.len() {
    } else if m.contains_key(bs[i].name) {
        lemma_fill_keeps(bs, i + 1, m, occ, next, n);
    } else {
        let f = least_free(occ, next);
        lemma_fill_keeps(bs, i + 1, m.insert(bs[i].name, f), occ.push(f), f + 1, n);
    }
}

proof fn lemma_fill_covers(bs: Seq<BranchView>, i: int, m: Map<Seq<char>, int>, occ: Seq<int>, next: int, j: int)
    requires
        0 <= i <= j < bs.len(),
    ensures
        fill_pass(bs, i, m, occ, next).contains_key(bs[j].name),
    decreases bs.len() - i,
{
    if m.contains_key(bs[i].name) {
        if i == j {
            lemma_fill_keeps(bs, i + 1, m, occ, next, bs[j].name);
        } else {
            lemma_fill_covers(bs, i + 1, m, occ, next, j);
        }
    } else {
        let f = least_free(occ, next);
        let m2 = m.insert(bs[i].name, f);
        if i == j {
            lemma_fill_keeps(bs, i + 1, m2, occ.push(f), f + 1, bs[j].name);
        } else {
            lemma_fill_covers(bs, i + 1, m2, occ.push(f), f + 1, j);
        }
    }
}

/// Every declared branch gets a lane.
pub proof fn law_every_branch_gets_a_lane(bs: Seq<BranchView>, j: int)
    requires
        0 <= j < bs.len(),
    ensures
        spec_assign_branch_lanes(bs).contains_key(bs[j].name),
{
    let (m, occ) = ordered_pass(bs, bs.len() as int);
    lemma_fill_covers(bs, 0, m, occ, 0, j);
}

proof fn lemma_no_orders_pass(bs: Seq<BranchView>, i: int)
    requires
        0 <= i <= bs.len(),
        forall|k: int| 0 <= k < bs.len() ==> (#[trigger] bs[k]).order is None,
    ensures
        ordered_pass(bs, i).0 == Map::<Seq<char>, int>::empty(),
        ordered_pass(bs, i).1 == Seq::<int>::empty(),
    decreases i,
{
    if i > 0 {
        lemma_no_orders_pass(bs, i - 1);
    }
}

proof fn lemma_fill_in_order(bs: Seq<BranchView>, i: int, m: Map<Seq<char>, int>, occ: Seq<int>)
    requires
        0 <= i <= bs.len(),
        forall|a: int, b: int| 0 <= a < b < bs.len() ==> (#[trigger] bs[a]).name != (#[trigger] bs[b]).name,
        occ == Seq::new(i as nat, |k: int| k),
        forall|n: Seq<char>| #[trigger] m.contains_key(n) <==> exists|k: int| 0 <= k < i && (#[trigger] bs[k]).name == n,
        forall|k: int| 0 <= k < i ==> m[(#[trigger] bs[k]).name] == k,
    ensures
        forall|k: int| 0 <= k < bs.len() ==> fill_pass(bs, i, m, occ, i)[(#[trigger] bs[k]).name] == k,
    decreases bs.len() - i,
{
    if i < bs.len() {
        assert(!m.contains_key(bs[i].name)) by {
            if m.contains_key(bs[i].name) {
                let k = choose|k: int| 0 <= k < i && (#[trigger] bs[k]).name == bs[i].name;
                assert(bs[k].name != bs[i].name);
            }
        }
        assert(!occ.contains(i));
        assert(free_search(occ, i, seq_max(occ) + 1) == i);
        let m2 = m.insert(bs[i].name, i);
        let occ2 = occ.push(i);
        assert(occ2 =~= Seq::new((i + 1) as nat, |k: int| k));
        assert forall|n: Seq<char>| #[trigger] m2.contains_key(n) <==> exists|k: int| 0 <= k < i + 1 && (#[trigger] bs[k]).name == n by {
            if m2.contains_key(n) && n != bs[i].name {
                assert(m.contains_key(n));
            }
            if n == bs[i].name {
                assert(bs[i].name == n);
            }
        }
        assert forall|k: int| 0 <= k < i + 1 implies m2[(#[trigger] bs[k]).name] == k by {
            if k < i {
                assert(bs[k].name != bs[i].name);
            }
        }
        lemma_fill_in_order(bs, i + 1, m2, occ2);
    } else {
        assert forall|k: int| 0 <= k < bs.len() implies fill_pass(bs, i, m, occ, i)[(#[trigger] bs[k]).name] == k by {
        }
    }
}

/// Without `order:` options, branches with distinct names take lanes in
/// declaration order: the `k`-th declared branch is drawn in lane `k`.
pub proof fn law_lanes_follow_declaration_order(bs: Seq<BranchView>, k: int)
    requires
        0 <= k < bs.len(),
        forall|i: int| 0 <= i < bs.len() ==> (#[trigger] bs[i]).order is None,
        forall|a: int, b: int| 0 <= a < b < bs.len() ==> (#[trigger] bs[a]).name != (#[trigger] bs[b]).name,
    ensures
        spec_assign_branch_lanes(bs)[bs[k].name] == k,
{
    lemma_no_orders_pass(bs, bs.len() as int);
    assert(Seq::<int>::empty() =~= Seq::new(0, |i: int| i));
    lemma_fill_in_order(bs, 0, Map::empty(), Seq::empty());
}

// ─────────────────────────────────────────────────────────────────────────────
// Grid layout
// ─────────────────────────────────────────────────────────────────────────────

/// A cell of the layout grid: a commit's place in declaration order and the
/// lane of its branch (the renderer maps cells to screen positions).
#[derive(Debug, Clone, Copy, PartialEq, Eq, Structural)]
pub struct GridPos {
    pub seq: usize,
    pub lane: usize,
}

/// Layout of one commit dot.
#[derive(Debug, Clone, Copy, PartialEq, Eq, Structural)]
pub struct GitGraphCommitLayout {
    /// Index into the graph's commits.
    pub commit_index: usize,
    /// Declaration-order sequence index (0-based).
    pub sequence: usize,
    /// Lane of the commit's branch.
    pub lane: usize,
}

/// A branch's line from its first commit (or its branch-off point on the
/// parent) to its last commit.
#[derive(Debug, Clone, PartialEq, Eq)]
pub struct GitGraphBranchLine {
    pub branch: String,
    pub lane: usize,
    pub start: GridPos,
    pub end: GridPos,
    /// The commit the branch diverged from, if any.
    pub branch_off: Option<GridPos>,
    pub parent_branch: Option<String>,
}

/// Merge connector from the source branch's tip to the merge commit.
#[derive(Debug, Clone, PartialEq, Eq)]
pub struct GitGraphMergeConnector {
    pub target_commit_index: usize,
    pub source_branch: String,
    pub source_pos: GridPos,
    pub target_pos: GridPos,
}

/// Cherry-pick connector from the source commit to the cherry-pick commit.
#[derive(Debug, Clone, Copy, PartialEq, Eq, Structural)]
pub struct GitGraphCherryPickConnector {
    pub target_commit_index: usize,
    pub source_commit_index: usize,
    pub source_pos: GridPos,
    pub target_pos: GridPos,
}

/// Layout of a git graph on the grid of sequence columns and branch lanes.
#[derive(Debug, Clone)]
pub struct GitGraphLayout {
    pub commits: Vec<GitGraphCommitLayout>,
    pub branch_lines: Vec<GitGraphBranchLine>,
    pub merge_connectors: Vec<GitGraphMergeConnector>,
    pub cherry_pick_connectors: Vec<GitGraphCherryPickConnector>,
    pub branch_lanes: Vec<BranchLane>,
    /// Largest sequence index (0 without commits).
    pub max_sequence: usize,
    /// Largest lane (0 without branches).
    pub max_lane: usize,
}

pub open spec fn lane_or_zero(lanes: Map<Seq<char>, int>, b: Seq<char>) -> int {
    if lanes.contains_key(b) {
        lanes[b]
    } else {
        0
    }
}

/// Grid cell of commit `i`.
pub open spec fn cell(cs: Seq<CommitView>, lanes: Map<Seq<char>, int>, i: int) -> (int, int) {
    (i, lane_or_zero(lanes, cs[i].branch))
}

pub open spec fn grid_view(g: GridPos) -> (int, int) {
    (g.seq as int, g.lane as int)
}

/// Last commit on `branch` before index `j`.
pub open spec fn last_on_before(cs: Seq<CommitView>, branch: Seq<char>, j: int) -> Option<int>
    decreases j,
{
    if j <= 0 || j > cs.len() {
        None
    } else if cs[j - 1].branch == branch {
        Some(j - 1)
    } else {
        last_on_before(cs, branch, j - 1)
    }
}

/// First commit on `branch` at or after index `i`.
pub open spec fn first_on_from(cs: Seq<CommitView>, branch: Seq<char>, i: int) -> Option<int>
    decreases cs.len() - i,
{
    if i < 0 || i >= cs.len() {
        None
    } else if cs[i].branch == branch {
        Some(i)
    } else {
        first_on_from(cs, branch, i + 1)
    }
}

/// First commit with id `id` at or after index `i`.
pub open spec fn first_with_id_from(cs: Seq<CommitView>, id: Seq<char>, i: int) -> Option<int>
    decreases cs.len() - i,
{
    if i < 0 || i >= cs.len() {
        None
    } else if cs[i].id == id {
        Some(i)
    } else {
        first_with_id_from(cs, id, i + 1)
    }
}

pub struct LineView {
    pub branch: Seq<char>,
    pub lane: int,
    pub start: (int, int),
    pub end: (int, int),
    pub branch_off: Option<(int, int)>,
    pub parent_branch: Option<Seq<char>>,
}

/// The line of a branch whose first commit is `f`.
pub open spec fn branch_line(cs: Seq<CommitView>, lanes: Map<Seq<char>, int>, name: Seq<char>, f: int) -> LineView {
    let last = last_on_before(cs, name, cs.len() as int)->0;
    let off = if f > 0 { Some(cell(cs, lanes, f - 1)) } else { None };
    LineView {
        branch: name,
        lane: lane_or_zero(lanes, name),
        start: match off {
            Some(p) => p,
            None => cell(cs, lanes, f),
        },
        end: cell(cs, lanes, last),
        branch_off: off,
        parent_branch: if f > 0 { Some(cs[f - 1].branch) } else { None },
    }
}

/// Lines of the first `k` branches that have commits, in declaration order.
pub open spec fn branch_lines_upto(cs: Seq<CommitView>, bs: Seq<BranchView>, lanes: Map<Seq<char>, int>, k: int) -> Seq<LineView>
    decreases k,
{
    if k <= 0 || k > bs.len() {
        seq![]
    } else {
        let p = branch_lines_upto(cs, bs, lanes, k - 1);
        match first_on_from(cs, bs[k - 1].name, 0) {
            Some(f) => p.push(branch_line(cs, lanes, bs[k - 1].name, f)),
            None => p,
        }
    }
}

pub struct MergeView {
    pub target: int,
    pub source_branch: Seq<char>,
    pub source_pos: (int, int),
    pub target_pos: (int, int),
}

/// Merge connectors of the first `k` commits: from the last earlier commit
/// on the merged branch (none when it has none) to the merge commit.
pub open spec fn merges_upto(cs: Seq<CommitView>, lanes: Map<Seq<char>, int>, k: int) -> Seq<MergeView>
    decreases k,
{
    if k <= 0 || k > cs.len() {
        seq![]
    } else {
        let p = merges_upto(cs, lanes, k - 1);
        let i = k - 1;
        if cs[i].is_merge && cs[i].merge_from is Some {
            let src = cs[i].merge_from->0;
            match last_on_before(cs, src, i) {
                Some(j) => p.push(MergeView { target: i, source_branch: src, source_pos: cell(cs, lanes, j), target_pos: cell(cs, lanes, i) }),
                None => p,
            }
        } else {
            p
        }
    }
}

pub struct PickView {
    pub target: int,
    pub source: int,
    pub source_pos: (int, int),
    pub target_pos: (int, int),
}

/// Cherry-pick connectors of the first `k` commits: from the first commit
/// with the picked id (none when no commit has it) to the cherry-pick.
pub open spec fn picks_upto(cs: Seq<CommitView>, lanes: Map<Seq<char>, int>, k: int) -> Seq<PickView>
    decreases k,
{
    if k <= 0 || k > cs.len() {
        seq![]
    } else {
        let p = picks_upto(cs, lanes, k - 1);
        let i = k - 1;
        if cs[i].is_cherry_pick && cs[i].cherry_pick_from_id is Some {
            match first_with_id_from(cs, cs[i].cherry_pick_from_id->0, 0) {
                Some(j) => p.push(PickView { target: i, source: j, source_pos: cell(cs, lanes, j), target_pos: cell(cs, lanes, i) }),
                None => p,
            }
        } else {
            p
        }
    }
}

/// Largest lane of a lane list (0 when empty).
pub open spec fn lane_max(es: Seq<BranchLane>) -> int
    decreases es.len(),
{
    if es.len() == 0 {
        0
    } else {
        let m = lane_max(es.drop_last());
        if es.last().lane as int > m { es.last().lane as int } else { m }
    }
}

pub open spec fn line_view(l: GitGraphBranchLine) -> LineView {
    LineView {
        branch: l.branch@,
        lane: l.lane as int,
        start: grid_view(l.start),
        end: grid_view(l.end),
        branch_off: match l.branch_off {
            Some(g) => Some(grid_view(g)),
            None => None,
        },
        parent_branch: opt_view(l.parent_branch),
    }
}

pub open spec fn merge_view(m: GitGraphMergeConnector) -> MergeView {
    MergeView { target: m.target_commit_index as int, source_branch: m.source_branch@, source_pos: grid_view(m.source_pos), target_pos: grid_view(m.target_pos) }
}

pub open spec fn pick_view(p: GitGraphCherryPickConnector) -> PickView {
    PickView { target: p.target_commit_index as int, source: p.source_commit_index as int, source_pos: grid_view(p.source_pos), target_pos: grid_view(p.target_pos) }
}

fn commit_lane(lanes: &Vec<BranchLane>, branch: &str) -> (r: usize)
    requires
        names_unique(lanes@),
    ensures
        r as int == lane_or_zero(lanes_map(lanes@), branch@),
{
    match lane_of(lanes, branch) {
        Some(l) => l,
        None => 0,
    }
}

fn cell_exec(commits: &Vec<GitCommit>, lanes: &Vec<BranchLane>, i: usize) -> (r: GridPos)
    requires
        names_unique(lanes@),
        i < commits@.len(),
    ensures
        grid_view(r) == cell(commits_view(commits@), lanes_map(lanes@), i as int),
{
    GridPos { seq: i, lane: commit_lane(lanes, commits[i].branch.as_str()) }
}

fn str_eq(a: &String, b: &String) -> (r: bool)
    ensures
        r == (a@ == b@),
{
    eq(&chars_of(a.as_str()), &chars_of(b.as_str()))
}

fn last_on_before_exec(commits: &Vec<GitCommit>, branch: &String, j: usize) -> (r: Option<usize>)
    requires
        j <= commits@.len(),
    ensures
        match r {
            Some(i) => last_on_before(commits_view(commits@), branch@, j as int) == Some(i as int) && i < j,
            None => last_on_before(commits_view(commits@), branch@, j as int) is None,
        },
{
    let ghost cs = commits_view(commits@);
    let mut k = j;
    while k > 0
        invariant
            k <= j <= commits@.len(),
            cs == commits_view(commits@),
            last_on_before(cs, branch@, k as int) == last_on_before(cs, branch@, j as int),
        decreases k,
    {
        assert(cs[k - 1].branch == commits@[k - 1].branch@);
        if str_eq(&commits[k - 1].branch, branch) {
            return Some(k - 1);
        }
        k = k - 1;
    }
    None
}

fn first_on_exec(commits: &Vec<GitCommit>, branch: &String) -> (r: Option<usize>)
    ensures
        match r {
            Some(i) => first_on_from(commits_view(commits@), branch@, 0) == Some(i as int) && i < commits@.len(),
            None => first_on_from(commits_view(commits@), branch@, 0) is None,
        },
{
    let ghost cs = commits_view(commits@);
    let mut k: usize = 0;
    while k < commits.len()
        invariant
            k <= commits@.len(),
            cs == commits_view(commits@),
            first_on_from(cs, branch@, k as int) == first_on_from(cs, branch@, 0),
        decreases commits@.len() - k,
    {
        assert(cs[k as int].branch == commits@[k as int].branch@);
        if str_eq(&commits[k].branch, branch) {
            return Some(k);
        }
        k = k + 1;
    }
    None
}

fn first_with_id_exec(commits: &Vec<GitCommit>, id: &String) -> (r: Option<usize>)
    ensures
        match r {
            Some(i) => first_with_id_from(commits_view(commits@), id@, 0) == Some(i as int) && i < commits@.len(),
            None => first_with_id_from(commits_view(commits@), id@, 0) is None,
        },
{
    let ghost cs = commits_view(commits@);
    let mut k: usize = 0;
    while k < commits.len()
        invariant
            k <= commits@.len(),
            cs == commits_view(commits@),
            first_with_id_from(cs, id@, k as int) == first_with_id_from(cs, id@, 0),
        decreases commits@.len() - k,
    {
        assert(cs[k as int].id == commits@[k as int].id@);
        if str_eq(&commits[k].id, id) {
            return Some(k);
        }
        k = k + 1;
    }
    None
}

proof fn lemma_last_on_before_found(cs: Seq<CommitView>, b: Seq<char>, j: int, f: int)
    requires
        0 <= f < j <= cs.len(),
        cs[f].branch == b,
    ensures
        last_on_before(cs, b, j) is Some,
    decreases j,
{
    if cs[j - 1].branch != b {
        lemma_last_on_before_found(cs, b, j - 1, f);
    }
}

proof fn lemma_first_on_found(cs: Seq<CommitView>, b: Seq<char>, i: int, f: int)
    requires
        0 <= i,
        first_on_from(cs, b, i) == Some(f),
    ensures
        i <= f < cs.len(),
        cs[f].branch == b,
    decreases cs.len() - i,
{
    if i < cs.len() && cs[i].branch != b {
        lemma_first_on_found(cs, b, i + 1, f);
    }
}

/// Lays a parsed git graph out on the grid: every commit in its own sequence
/// column on its branch's lane, a line per branch with commits, merge and
/// cherry-pick connectors, and the grid's extent.
#[verifier::rlimit(40)]
pub fn layout_git_graph(graph: &GitGraph) -> (r: GitGraphLayout)
    ensures
        names_unique(r.branch_lanes@),
        lanes_map(r.branch_lanes@) == spec_assign_branch_lanes(branches_view(graph.branches@)),
        r.commits@.len() == graph.commits@.len(),
        forall|i: int| 0 <= i < r.commits@.len() ==> ({
            let c = #[trigger] r.commits@[i];
            c.commit_index == i && c.sequence == i
                && c.lane as int == lane_or_zero(lanes_map(r.branch_lanes@), graph.commits@[i].branch@)
        }),
        r.branch_lines@.map_values(|l: GitGraphBranchLine| line_view(l)) == branch_lines_upto(
            commits_view(graph.commits@),
            branches_view(graph.branches@),
            lanes_map(r.branch_lanes@),
            graph.branches@.len() as int,
        ),
        r.merge_connectors@.map_values(|m: GitGraphMergeConnector| merge_view(m)) == merges_upto(
            commits_view(graph.commits@),
            lanes_map(r.branch_lanes@),
            graph.commits@.len() as int,
        ),
        r.cherry_pick_connectors@.map_values(|p: GitGraphCherryPickConnector| pick_view(p)) == picks_upto(
            commits_view(graph.commits@),
            lanes_map(r.branch_lanes@),
            graph.commits@.len() as int,
        ),
        r.max_sequence == (if graph.commits@.len() > 0 { graph.commits@.len() - 1 } else { 0 }),
        r.max_lane as int == lane_max(r.branch_lanes@),
{
    let lanes = assign_branch_lanes(&graph.branches);
    let ghost cs = commits_view(graph.commits@);
    let ghost bs = branches_view(graph.branches@);
    let ghost lm = lanes_map(lanes@);
    let n = graph.commits.len();

    let mut commits: Vec<GitGraphCommitLayout> = Vec::new();
    let mut i: usize = 0;
    while i < n
        invariant
            i <= n == graph.commits@.len(),
            names_unique(lanes@),
            commits@.len() == i,
            forall|k: int| 0 <= k < i ==> ({
                let c = #[trigger] commits@[k];
                c.commit_index == k && c.sequence == k
                    && c.lane as int == lane_or_zero(lanes_map(lanes@), graph.commits@[k].branch@)
            }),
        decreases n - i,
    {
        let lane = commit_lane(&lanes, graph.commits[i].branch.as_str());
        commits.push(GitGraphCommitLayout { commit_index: i, sequence: i, lane });
        i = i + 1;
    }

    let mut lines: Vec<GitGraphBranchLine> = Vec::new();
    let mut b: usize = 0;
    while b < graph.branches.len()
        invariant
            b <= graph.branches@.len(),
            names_unique(lanes@),
            cs == commits_view(graph.commits@),
            bs == branches_view(graph.branches@),
            lm == lanes_map(lanes@),
            lines@.map_values(|l: GitGraphBranchLine| line_view(l)) == branch_lines_upto(cs, bs, lm, b as int),
        decreases graph.branches@.len() - b,
    {
        let name = &graph.branches[b].name;
        assert(bs[b as int].name == name@);
        let ghost before = lines@;
        match first_on_exec(&graph.commits, name) {
            Some(f) => {
                proof {
                    lemma_first_on_found(cs, name@, 0, f as int);
                    lemma_last_on_before_found(cs, name@, cs.len() as int, f as int);
                }
                let last = last_on_before_exec(&graph.commits, name, graph.commits.len()).unwrap();
                let off = if f > 0 {
                    Some(cell_exec(&graph.commits, &lanes, f - 1))
                } else {
                    None
                };
                let start = match off {
                    Some(p) => p,
                    None => cell_exec(&graph.commits, &lanes, f),
                };
                let parent = if f > 0 {
                    Some(graph.commits[f - 1].branch.clone())
                } else {
                    None
                };
                let line = GitGraphBranchLine {
                    branch: name.clone(),
                    lane: commit_lane(&lanes, name.as_str()),
                    start,
                    end: cell_exec(&graph.commits, &lanes, last),
                    branch_off: off,
                    parent_branch: parent,
                };
                assert(line_view(line) == branch_line(cs, lm, name@, f as int));
                lines.push(line);
                assert(lines@ =~= before.push(line));
                assert(lines@.map_values(|l: GitGraphBranchLine| line_view(l)) =~= before.map_values(|l: GitGraphBranchLine| line_view(l)).push(line_view(line)));
            },
            None => {},
        }
        b = b + 1;
    }

    let mut merges: Vec<GitGraphMergeConnector> = Vec::new();
    let mut picks: Vec<GitGraphCherryPickConnector> = Vec::new();
    let mut k: usize = 0;
    while k < n
        invariant
            k <= n == graph.commits@.len(),
            names_unique(lanes@),
            cs == commits_view(graph.commits@),
            lm == lanes_map(lanes@),
            merges@.map_values(|m: GitGraphMergeConnector| merge_view(m)) == merges_upto(cs, lm, k as int),
            picks@.map_values(|p: GitGraphCherryPickConnector| pick_view(p)) == picks_upto(cs, lm, k as int),
        decreases n - k,
    {
        let c = &graph.commits[k];
        assert(cs[k as int] == commit_view(*c));
        if c.is_merge {
            match &c.merge_from {
                Some(src) => {
                    match last_on_before_exec(&graph.commits, src, k) {
                        Some(j) => {
                            let ghost before = merges@;
                            let m = GitGraphMergeConnector {
                                target_commit_index: k,
                                source_branch: src.clone(),
                                source_pos: cell_exec(&graph.commits, &lanes, j),
                                target_pos: cell_exec(&graph.commits, &lanes, k),
                            };
                            merges.push(m);
                            assert(merges@ =~= before.push(m));
                            assert(merges@.map_values(|m: GitGraphMergeConnector| merge_view(m)) =~= before.map_values(|m: GitGraphMergeConnector| merge_view(m)).push(merge_view(m)));
                        },
                        None => {},
                    }
                },
                None => {},
            }
        }
        if c.is_cherry_pick {
            match &c.cherry_pick_from_id {
                Some(id) => {
                    match first_with_id_exec(&graph.commits, id) {
                        Some(j) => {
                            let ghost before = picks@;
                            let p = GitGraphCherryPickConnector {
                                target_commit_index: k,
                                source_commit_index: j,
                                source_pos: cell_exec(&graph.commits, &lanes, j),
                                target_pos: cell_exec(&graph.commits, &lanes, k),
                            };
                            picks.push(p);
                            assert(picks@ =~= before.push(p));
                            assert(picks@.map_values(|p: GitGraphCherryPickConnector| pick_view(p)) =~= before.map_values(|p: GitGraphCherryPickConnector| pick_view(p)).push(pick_view(p)));
                        },
                        None => {},
                    }
                },
                None => {},
            }
        }
        k = k + 1;
    }

    let mut max_lane: usize = 0;
    let mut t: usize = 0;
    while t < lanes.len()
        invariant
            t <= lanes@.len(),
            max_lane as int == lane_max(lanes@.take(t as int)),
        decreases lanes@.len() - t,
    {
        assert(lanes@.take(t + 1).drop_last() =~= lanes@.take(t as int));
        if lanes[t].lane > max_lane {
            max_lane = lanes[t].lane;
        }
        t = t + 1;
    }
    assert(lanes@.take(lanes@.len() as int) =~= lanes@);
    let max_sequence = if n > 0 { n - 1 } else { 0 };
    GitGraphLayout {
        commits,
        branch_lines: lines,
        merge_connectors: merges,
        cherry_pick_connectors: picks,
        branch_lanes: lanes,
        max_sequence,
        max_lane,
    }
}

// ─────────────────────────────────────────────────────────────────────────────
// What every parsed graph keeps
// ─────────────────────────────────────────────────────────────────────────────

/// Some branch of `bs` is named `name`.
pub open spec fn branch_declared(bs: Seq<BranchView>, name: Seq<char>) -> bool {
    exists|i: int| 0 <= i < bs.len() && (#[trigger] bs[i]).name == name
}

/// No two branches of `bs` share a name.
pub open spec fn branch_names_distinct(bs: Seq<BranchView>) -> bool {
    forall|a: int, b: int| 0 <= a < b < bs.len() ==> (#[trigger] bs[a]).name != (#[trigger] bs[b]).name
}

/// `main` comes first, branch names are distinct, and the current branch and
/// the branch of every commit are declared.
pub open spec fn state_ok(st: GraphState) -> bool {
    &&& st.branches.len() > 0
    &&& st.branches[0].name == "main"@
    &&& branch_names_distinct(st.branches)
    &&& branch_declared(st.branches, st.current)
    &&& forall|i: int| 0 <= i < st.commits.len() ==> branch_declared(st.branches, (#[trigger] st.commits[i]).branch)
}

proof fn lemma_find_branch_props(bs: Seq<BranchView>, name: Seq<char>, i: int)
    requires
        0 <= i,
    ensures
        find_branch(bs, name, i) matches Some(k) ==> i <= k < bs.len() && bs[k].name == name,
        find_branch(bs, name, i) is None ==> forall|t: int| i <= t < bs.len() ==> (#[trigger] bs[t]).name != name,
    decreases bs.len() - i,
{
    if i < bs.len() && bs[i].name != name {
        lemma_find_branch_props(bs, name, i + 1);
    }
}

/// Registering a branch declares it, keeps every declared name and `main`
/// first, and never repeats a name.
proof fn lemma_ensure_branch_ok(bs: Seq<BranchView>, name: Seq<char>, order: Option<u32>)
    requires
        bs.len() > 0,
        branch_names_distinct(bs),
    ensures
        spec_ensure_branch(bs, name, order).len() > 0,
        spec_ensure_branch(bs, name, order)[0].name == bs[0].name,
        branch_names_distinct(spec_ensure_branch(bs, name, order)),
        branch_declared(spec_ensure_branch(bs, name, order), name),
        forall|x: Seq<char>| branch_declared(bs, x) ==> branch_declared(#[trigger] spec_ensure_branch(bs, name, order), x),
{
    let r = spec_ensure_branch(bs, name, order);
    lemma_find_branch_props(bs, name, 0);
    match find_branch(bs, name, 0) {
        Some(i) => {
            assert forall|k: int| 0 <= k < r.len() implies (#[trigger] r[k]).name == bs[k].name by {}
            assert(r[i].name == name);
            assert forall|x: Seq<char>| branch_declared(bs, x) implies branch_declared(r, x) by {
                let k = choose|k: int| 0 <= k < bs.len() && (#[trigger] bs[k]).name == x;
                assert(r[k].name == x);
            }
        },
        None => {
            assert(r == bs.push(BranchView { name: name, color_idx: bs.len(), order: order }));
            assert(r[bs.len() as int].name == name);
            assert forall|k: int| 0 <= k < bs.len() implies (#[trigger] r[k]) == bs[k] by {}
            assert forall|x: Seq<char>| branch_declared(bs, x) implies branch_declared(r, x) by {
                let k = choose|k: int| 0 <= k < bs.len() && (#[trigger] bs[k]).name == x;
                assert(r[k].name == x);
            }
            assert forall|a: int, b: int| 0 <= a < b < r.len() implies (#[trigger] r[a]).name != (#[trigger] r[b]).name by {
                assert(r[a] == bs[a]);
                if b < bs.len() {
                    assert(r[b] == bs[b]);
                }
            }
        },
    }
}

/// A commit on the current branch keeps the state well formed.
proof fn lemma_push_commit_ok(st: GraphState, st1: GraphState, c: CommitView)
    requires
        state_ok(st),
        st1.branches == st.branches,
        st1.commits == st.commits,
        st1.current == st.current,
        c.branch == st.current,
    ensures
        state_ok(GraphState { commits: st1.commits.push(c), ..st1 }),
{
    let cs = st1.commits.push(c);
    assert forall|i: int| 0 <= i < cs.len() implies branch_declared(st.branches, (#[trigger] cs[i]).branch) by {
        if i < st.commits.len() {
            assert(cs[i] == st.commits[i]);
        }
    }
}

proof fn lemma_switch_branch_ok(st: GraphState, name: Seq<char>, order: Option<u32>)
    requires
        state_ok(st),
    ensures
        state_ok(GraphState { branches: spec_ensure_branch(st.branches, name, order), current: name, ..st }),
{
    lemma_ensure_branch_ok(st.branches, name, order);
    let bs2 = spec_ensure_branch(st.branches, name, order);
    assert forall|i: int| 0 <= i < st.commits.len() implies branch_declared(bs2, (#[trigger] st.commits[i]).branch) by {
        assert(branch_declared(st.branches, st.commits[i].branch));
    }
}

proof fn lemma_graph_step_ok(st: GraphState, line_no: nat, line: Seq<char>)
    requires
        state_ok(st),
    ensures
        state_ok(graph_step(st, line_no, line)),
{
    let t = trim(line);
    let lo = fold(t);
    if starts_with(lo, "commit"@) {
        let n = st.counter + 1;
        let opts = spec_parse_options(spec_trim_after_keyword(t, "commit"@));
        let type_raw = lookup(opts, "type"@);
        let st1 = match type_raw {
            Some(r) => if spec_commit_kind(r) is None {
                warn(st, line_no, "Unknown commit type: "@ + r)
            } else {
                st
            },
            None => st,
        };
        let id = match lookup(opts, "id"@) {
            Some(v) => v,
            None => seq!['c'] + decimal(n),
        };
        let kind = match type_raw {
            Some(r) => match spec_commit_kind(r) {
                Some(k) => k,
                None => GitCommitKind::Normal,
            },
            None => GitCommitKind::Normal,
        };
        let c = CommitView { message: lookup(opts, "msg"@), tag: lookup(opts, "tag"@), kind, ..plain_commit(id, st.current) };
        lemma_push_commit_ok(st, st1, c);
        assert(graph_step(st, line_no, line) == GraphState { commits: st1.commits.push(c), counter: n, ..st1 });
    } else if starts_with(lo, "branch"@) {
        let (name, order) = spec_branch_name_and_order(spec_trim_after_keyword(t, "branch"@));
        if name.len() > 0 {
            lemma_switch_branch_ok(st, name, order);
        }
    } else if starts_with(lo, "checkout"@) || starts_with(lo, "switch"@) {
        let kw = if starts_with(lo, "checkout"@) { "checkout"@ } else { "switch"@ };
        let name = spec_strip_quotes(spec_trim_after_keyword(t, kw));
        if name.len() > 0 {
            lemma_switch_branch_ok(st, name, None);
        }
    } else if starts_with(lo, "merge"@) {
        let n = st.counter + 1;
        let (from, id) = merge_parts(spec_trim_after_keyword(t, "merge"@), n);
        let c = CommitView { message: Some("Merge "@ + from), is_merge: true, merge_from: Some(from), ..plain_commit(id, st.current) };
        lemma_push_commit_ok(st, st, c);
        assert(graph_step(st, line_no, line) == GraphState { commits: st.commits.push(c), counter: n, ..st });
    } else if starts_with(lo, "cherry-pick"@) || starts_with(lo, "cherrypick"@) {
        let kw = if starts_with(lo, "cherry-pick"@) { "cherry-pick"@ } else { "cherrypick"@ };
        let n = st.counter + 1;
        let opts = spec_parse_options(spec_trim_after_keyword(t, kw));
        let source = match lookup(opts, "id"@) {
            Some(v) => v,
            None => seq![],
        };
        if source.len() > 0 {
            let st1 = if has_commit_id(st.commits, source) {
                st
            } else {
                warn(st, line_no, "cherry-pick references unknown commit id: "@ + source)
            };
            let c = CommitView {
                message: Some("cherry-pick "@ + source),
                is_cherry_pick: true,
                cherry_pick_from_id: Some(source),
                ..plain_commit(seq!['c', 'p'] + decimal(n), st.current)
            };
            lemma_push_commit_ok(st, st1, c);
            assert(graph_step(st, line_no, line) == GraphState { commits: st1.commits.push(c), counter: n, ..st1 });
        }
    }
}

proof fn lemma_run_lines_ok(ls: Seq<Seq<char>>, j: int, st: GraphState)
    requires
        state_ok(st),
    ensures
        state_ok(run_lines(ls, j, st)),
    decreases ls.len() - j,
{
    if 0 <= j < ls.len() {
        if is_content_line(ls[j]) {
            lemma_graph_step_ok(st, (j + 1) as nat, ls[j]);
            lemma_run_lines_ok(ls, j + 1, graph_step(st, (j + 1) as nat, ls[j]));
        } else {
            lemma_run_lines_ok(ls, j + 1, st);
        }
    }
}

/// A parsed graph lists `main` first and no branch twice, and every commit
/// lies on one of its branches, which therefore has a lane.
pub proof fn law_parsed_graph_well_formed(source: Seq<char>)
    ensures
        spec_parse_git_graph(source) matches Ok(g) ==> {
            &&& g.branches.len() > 0
            &&& g.branches[0].name == "main"@
            &&& branch_names_distinct(g.branches)
            &&& forall|i: int| 0 <= i < g.commits.len() ==> branch_declared(g.branches, (#[trigger] g.commits[i]).branch)
            &&& forall|i: int| 0 <= i < g.commits.len() ==> spec_assign_branch_lanes(g.branches).contains_key((#[trigger] g.commits[i]).branch)
        },
{
    let ls = lines(source);
    if let Some(h) = first_content(ls, 0) {
        assert(branch_declared(initial_state().branches, "main"@)) by {
            assert(initial_state().branches[0].name == "main"@);
        }
        lemma_run_lines_ok(ls, h + 1, initial_state());
        if let Ok(g) = spec_parse_git_graph(source) {
            assert forall|i: int| 0 <= i < g.commits.len() implies spec_assign_branch_lanes(g.branches).contains_key((#[trigger] g.commits[i]).branch) by {
                assert(branch_declared(g.branches, g.commits[i].branch));
                let k = choose|k: int| 0 <= k < g.branches.len() && (#[trigger] g.branches[k]).name == g.commits[i].branch;
                law_every_branch_gets_a_lane(g.branches, k);
            }
        }
    }
}

// ─────────────────────────────────────────────────────────────────────────────
// More facts of every parsed graph
// ─────────────────────────────────────────────────────────────────────────────

/// Branch `i` has color index `i`; merges name their source and cherry-picks
/// a non-empty id; warnings come by increasing line, all before `next_line`.
pub open spec fn graph_facts(st: GraphState, next_line: nat) -> bool {
    &&& forall|i: int| 0 <= i < st.branches.len() ==> (#[trigger] st.branches[i]).color_idx == i
    &&& forall|i: int| 0 <= i < st.commits.len() ==> ((#[trigger] st.commits[i]).is_merge ==> st.commits[i].merge_from is Some)
    &&& forall|i: int| 0 <= i < st.commits.len() ==> ((#[trigger] st.commits[i]).is_cherry_pick
        ==> (st.commits[i].cherry_pick_from_id matches Some(s) && s.len() > 0))
    &&& forall|i: int, j: int| 0 <= i < j < st.warnings.len() ==> (#[trigger] st.warnings[i]).line < (#[trigger] st.warnings[j]).line
    &&& forall|i: int| 0 <= i < st.warnings.len() ==> (#[trigger] st.warnings[i]).line < next_line
}

proof fn lemma_warn_facts(st: GraphState, n: nat, msg: Seq<char>)
    requires
        graph_facts(st, n),
    ensures
        graph_facts(warn(st, n, msg), n + 1),
{
    let w = warn(st, n, msg).warnings;
    assert forall|i: int, j: int| 0 <= i < j < w.len() implies (#[trigger] w[i]).line < (#[trigger] w[j]).line by {
        assert(w[i] == st.warnings[i]);
        if j < st.warnings.len() {
            assert(w[j] == st.warnings[j]);
        }
    }
    assert forall|i: int| 0 <= i < w.len() implies (#[trigger] w[i]).line < n + 1 by {
        if i < st.warnings.len() {
            assert(w[i] == st.warnings[i]);
        }
    }
}

proof fn lemma_facts_later(st: GraphState, n: nat, m: nat)
    requires
        graph_facts(st, n),
        n <= m,
    ensures
        graph_facts(st, m),
{
}

proof fn lemma_push_commit_facts(st1: GraphState, c: CommitView, n: nat)
    requires
        graph_facts(st1, n),
        c.is_merge ==> c.merge_from is Some,
        c.is_cherry_pick ==> (c.cherry_pick_from_id matches Some(s) && s.len() > 0),
    ensures
        graph_facts(GraphState { commits: st1.commits.push(c), ..st1 }, n),
{
    let cs = st1.commits.push(c);
    assert forall|i: int| 0 <= i < cs.len() implies ((#[trigger] cs[i]).is_merge ==> cs[i].merge_from is Some)
        && (cs[i].is_cherry_pick ==> (cs[i].cherry_pick_from_id matches Some(s) && s.len() > 0)) by {
        if i < st1.commits.len() {
            assert(cs[i] == st1.commits[i]);
        }
    }
}

proof fn lemma_ensure_branch_colors(bs: Seq<BranchView>, name: Seq<char>, order: Option<u32>)
    requires
        forall|i: int| 0 <= i < bs.len() ==> (#[trigger] bs[i]).color_idx == i,
    ensures
        forall|i: int| 0 <= i < spec_ensure_branch(bs, name, order).len() ==> (#[trigger] spec_ensure_branch(bs, name, order)[i]).color_idx == i,
{
    lemma_find_branch_props(bs, name, 0);
}

proof fn lemma_graph_step_facts(st: GraphState, line_no: nat, line: Seq<char>)
    requires
        graph_facts(st, line_no),
    ensures
        graph_facts(graph_step(st, line_no, line), line_no + 1),
{
    let t = trim(line);
    let lo = fold(t);
    lemma_facts_later(st, line_no, line_no + 1);
    if starts_with(lo, "commit"@) {
        let opts = spec_parse_options(spec_trim_after_keyword(t, "commit"@));
        let type_raw = lookup(opts, "type"@);
        let st1 = match type_raw {
            Some(r) => if spec_commit_kind(r) is None {
                warn(st, line_no, "Unknown commit type: "@ + r)
            } else {
                st
            },
            None => st,
        };
        match type_raw {
            Some(r) => if spec_commit_kind(r) is None {
                lemma_warn_facts(st, line_no, "Unknown commit type: "@ + r);
            },
            None => {},
        }
        let id = match lookup(opts, "id"@) {
            Some(v) => v,
            None => seq!['c'] + decimal(st.counter + 1),
        };
        let kind = match type_raw {
            Some(r) => match spec_commit_kind(r) {
                Some(k) => k,
                None => GitCommitKind::Normal,
            },
            None => GitCommitKind::Normal,
        };
        let c = CommitView { message: lookup(opts, "msg"@), tag: lookup(opts, "tag"@), kind, ..plain_commit(id, st.current) };
        lemma_push_commit_facts(st1, c, line_no + 1);
        assert(graph_step(st, line_no, line) == GraphState { commits: st1.commits.push(c), counter: st.counter + 1, ..st1 });
    } else if starts_with(lo, "branch"@) {
        let (name, order) = spec_branch_name_and_order(spec_trim_after_keyword(t, "branch"@));
        if name.len() == 0 {
            lemma_warn_facts(st, line_no, "Branch statement missing branch name"@);
        } else {
            lemma_ensure_branch_colors(st.branches, name, order);
        }
    } else if starts_with(lo, "checkout"@) || starts_with(lo, "switch"@) {
        let kw = if starts_with(lo, "checkout"@) { "checkout"@ } else { "switch"@ };
        let name = spec_strip_quotes(spec_trim_after_keyword(t, kw));
        if name.len() == 0 {
            lemma_warn_facts(st, line_no, kw + " statement missing branch name"@);
        } else {
            lemma_ensure_branch_colors(st.branches, name, None);
        }
    } else if starts_with(lo, "merge"@) {
        let n = st.counter + 1;
        let (from, id) = merge_parts(spec_trim_after_keyword(t, "merge"@), n);
        let c = CommitView { message: Some("Merge "@ + from), is_merge: true, merge_from: Some(from), ..plain_commit(id, st.current) };
        lemma_push_commit_facts(st, c, line_no + 1);
        assert(graph_step(st, line_no, line) == GraphState { commits: st.commits.push(c), counter: n, ..st });
    } else if starts_with(lo, "cherry-pick"@) || starts_with(lo, "cherrypick"@) {
        let kw = if starts_with(lo, "cherry-pick"@) { "cherry-pick"@ } else { "cherrypick"@ };
        let n = st.counter + 1;
        let opts = spec_parse_options(spec_trim_after_keyword(t, kw));
        let source = match lookup(opts, "id"@) {
            Some(v) => v,
            None => seq![],
        };
        if source.len() == 0 {
            lemma_warn_facts(st, line_no, "cherry-pick statement missing id:"@);
        } else {
            let st1 = if has_commit_id(st.commits, source) {
                st
            } else {
                lemma_warn_facts(st, line_no, "cherry-pick references unknown commit id: "@ + source);
                warn(st, line_no, "cherry-pick references unknown commit id: "@ + source)
            };
            let c = CommitView {
                message: Some("cherry-pick "@ + source),
                is_cherry_pick: true,
                cherry_pick_from_id: Some(source),
                ..plain_commit(seq!['c', 'p'] + decimal(n), st.current)
            };
            lemma_push_commit_facts(st1, c, line_no + 1);
            assert(graph_step(st, line_no, line) == GraphState { commits: st1.commits.push(c), counter: n, ..st1 });
        }
    } else {
        lemma_warn_facts(st, line_no, "Unknown gitGraph statement: "@ + t);
    }
}

proof fn lemma_run_lines_facts(ls: Seq<Seq<char>>, j: int, st: GraphState)
    requires
        0 <= j <= ls.len(),
        graph_facts(st, (j + 1) as nat),
    ensures
        graph_facts(run_lines(ls, j, st), (ls.len() + 1) as nat),
    decreases ls.len() - j,
{
    if j < ls.len() {
        if is_content_line(ls[j]) {
            lemma_graph_step_facts(st, (j + 1) as nat, ls[j]);
            assert(run_lines(ls, j, st) == run_lines(ls, j + 1, graph_step(st, (j + 1) as nat, ls[j])));
            lemma_run_lines_facts(ls, j + 1, graph_step(st, (j + 1) as nat, ls[j]));
        } else {
            lemma_facts_later(st, (j + 1) as nat, (j + 2) as nat);
            assert(run_lines(ls, j, st) == run_lines(ls, j + 1, st));
            lemma_run_lines_facts(ls, j + 1, st);
        }
    }
}

/// In a parsed graph branch `i` has color index `i`, every merge names the
/// branch it merges, every cherry-pick names a non-empty commit id, and the
/// warnings come by strictly increasing line, each a line of the source.
pub proof fn law_parsed_graph_fields(source: Seq<char>)
    ensures
        spec_parse_git_graph(source) matches Ok(g) ==> {
            &&& forall|i: int| 0 <= i < g.branches.len() ==> (#[trigger] g.branches[i]).color_idx == i
            &&& forall|i: int| 0 <= i < g.commits.len() ==> ((#[trigger] g.commits[i]).is_merge ==> g.commits[i].merge_from is Some)
            &&& forall|i: int| 0 <= i < g.commits.len() ==> ((#[trigger] g.commits[i]).is_cherry_pick
                ==> (g.commits[i].cherry_pick_from_id matches Some(s) && s.len() > 0))
            &&& forall|i: int, j: int| 0 <= i < j < g.warnings.len() ==> (#[trigger] g.warnings[i]).line < (#[trigger] g.warnings[j]).line
            &&& forall|i: int| 0 <= i < g.warnings.len() ==> 1 <= (#[trigger] g.warnings[i]).line <= lines(source).len()
        },
{
    let ls = lines(source);
    if let Some(h) = first_content(ls, 0) {
        lemma_first_content_bound(ls, 0);
        let st0 = initial_state();
        assert(st0.branches[0].color_idx == 0);
        lemma_run_lines_facts(ls, h + 1, st0);
        lemma_run_lines_warn_lines(ls, h + 1, st0);
    }
}

proof fn lemma_first_content_bound(ls: Seq<Seq<char>>, i: int)
    requires
        0 <= i,
    ensures
        first_content(ls, i) matches Some(h) ==> i <= h < ls.len(),
    decreases ls.len() - i,
{
    if i < ls.len() && !is_content_line(ls[i]) {
        lemma_first_content_bound(ls, i + 1);
    }
}

/// Warning lines given from index `j` on are at least `j + 1`.
proof fn lemma_run_lines_warn_lines(ls: Seq<Seq<char>>, j: int, st: GraphState)
    requires
        0 <= j,
        forall|i: int| 0 <= i < st.warnings.len() ==> (#[trigger] st.warnings[i]).line >= 1,
    ensures
        forall|i: int| 0 <= i < run_lines(ls, j, st).warnings.len() ==> (#[trigger] run_lines(ls, j, st).warnings[i]).line >= 1,
    decreases ls.len() - j,
{
    if j < ls.len() {
        if is_content_line(ls[j]) {
            let st2 = graph_step(st, (j + 1) as nat, ls[j]);
            lemma_graph_step_warn_lines(st, (j + 1) as nat, ls[j]);
            assert(run_lines(ls, j, st) == run_lines(ls, j + 1, st2));
            lemma_run_lines_warn_lines(ls, j + 1, st2);
        } else {
            assert(run_lines(ls, j, st) == run_lines(ls, j + 1, st));
            lemma_run_lines_warn_lines(ls, j + 1, st);
        }
    }
}

proof fn lemma_graph_step_warn_lines(st: GraphState, line_no: nat, line: Seq<char>)
    requires
        line_no >= 1,
        forall|i: int| 0 <= i < st.warnings.len() ==> (#[trigger] st.warnings[i]).line >= 1,
    ensures
        forall|i: int| 0 <= i < graph_step(st, line_no, line).warnings.len() ==> (#[trigger] graph_step(st, line_no, line).warnings[i]).line >= 1,
{
    let w = graph_step(st, line_no, line).warnings;
    assert(w.len() == st.warnings.len() || w.len() == st.warnings.len() + 1);
    assert forall|i: int| 0 <= i < w.len() implies (#[trigger] w[i]).line >= 1 by {
        if i < st.warnings.len() {
            assert(w[i] == st.warnings[i]);
        }
    }
}

/// The id a `cherry-pick` line names after keyword `kw` (empty when none).
pub open spec fn cherry_source(t: Seq<char>, kw: Seq<char>) -> Seq<char> {
    match lookup(spec_parse_options(spec_trim_after_keyword(t, kw)), "id"@) {
        Some(v) => v,
        None => seq![],
    }
}

/// A content line that adds a commit: `commit`, `merge`, or a cherry-pick
/// that names an id.
pub open spec fn produces_commit(line: Seq<char>) -> bool {
    let t = trim(line);
    let lo = fold(t);
    &&& is_content_line(line)
    &&& starts_with(lo, "commit"@) || starts_with(lo, "merge"@) || (starts_with(lo, "cherry-pick"@)
        && cherry_source(t, "cherry-pick"@).len() > 0) || (!starts_with(lo, "cherry-pick"@) && starts_with(
        lo,
        "cherrypick"@,
    ) && cherry_source(t, "cherrypick"@).len() > 0)
}

/// Lines from index `j` on that add a commit.
pub open spec fn produced_from(ls: Seq<Seq<char>>, j: int) -> nat
    decreases ls.len() - j,
{
    if j < 0 || j >= ls.len() {
        0
    } else {
        (if produces_commit(ls[j]) { 1nat } else { 0nat }) + produced_from(ls, j + 1)
    }
}

proof fn lemma_statement_kinds_disjoint(lo: Seq<char>)
    ensures
        starts_with(lo, "commit"@) ==> !starts_with(lo, "branch"@) && !starts_with(lo, "checkout"@) && !starts_with(lo, "switch"@)
            && !starts_with(lo, "merge"@) && !starts_with(lo, "cherry-pick"@) && !starts_with(lo, "cherrypick"@),
        starts_with(lo, "merge"@) ==> !starts_with(lo, "branch"@) && !starts_with(lo, "checkout"@) && !starts_with(lo, "switch"@),
        starts_with(lo, "cherry-pick"@) || starts_with(lo, "cherrypick"@) ==> !starts_with(lo, "branch"@) && !starts_with(lo, "checkout"@)
            && !starts_with(lo, "switch"@) && !starts_with(lo, "merge"@),
{
    reveal_strlit("commit");
    reveal_strlit("branch");
    reveal_strlit("checkout");
    reveal_strlit("switch");
    reveal_strlit("merge");
    reveal_strlit("cherry-pick");
    reveal_strlit("cherrypick");
    if lo.len() >= 4 {
        assert(lo.take(4)[0] == lo[0] && lo.take(4)[1] == lo[1] && lo.take(4)[2] == lo[2] && lo.take(4)[3] == lo[3]);
    }
    if starts_with(lo, "commit"@) { assert(lo.take(6)[0] == lo[0] && lo.take(6)[1] == lo[1]); }
    if starts_with(lo, "branch"@) { assert(lo.take(6)[0] == lo[0]); }
    if starts_with(lo, "checkout"@) { assert(lo.take(8)[0] == lo[0] && lo.take(8)[1] == lo[1] && lo.take(8)[3] == lo[3]); }
    if starts_with(lo, "switch"@) { assert(lo.take(6)[0] == lo[0]); }
    if starts_with(lo, "merge"@) { assert(lo.take(5)[0] == lo[0]); }
    if starts_with(lo, "cherry-pick"@) { assert(lo.take(11)[0] == lo[0] && lo.take(11)[1] == lo[1] && lo.take(11)[3] == lo[3]); }
    if starts_with(lo, "cherrypick"@) { assert(lo.take(10)[0] == lo[0] && lo.take(10)[1] == lo[1] && lo.take(10)[3] == lo[3]); }
}

proof fn lemma_graph_step_commits(st: GraphState, line_no: nat, line: Seq<char>)
    requires
        is_content_line(line),
    ensures
        graph_step(st, line_no, line).commits.len() == st.commits.len() + if produces_commit(line) { 1nat } else { 0nat },
{
    lemma_statement_kinds_disjoint(fold(trim(line)));
}

proof fn lemma_run_lines_commits(ls: Seq<Seq<char>>, j: int, st: GraphState)
    requires
        0 <= j,
    ensures
        run_lines(ls, j, st).commits.len() == st.commits.len() + produced_from(ls, j),
    decreases ls.len() - j,
{
    if j < ls.len() {
        if is_content_line(ls[j]) {
            lemma_graph_step_commits(st, (j + 1) as nat, ls[j]);
            assert(run_lines(ls, j, st) == run_lines(ls, j + 1, graph_step(st, (j + 1) as nat, ls[j])));
            lemma_run_lines_commits(ls, j + 1, graph_step(st, (j + 1) as nat, ls[j]));
        } else {
            assert(run_lines(ls, j, st) == run_lines(ls, j + 1, st));
            lemma_run_lines_commits(ls, j + 1, st);
        }
    }
}

/// Parsing fails, always with "No commits found in git graph", exactly when
/// there is no header line or no body line that adds a commit (`commit`,
/// `merge`, or a cherry-pick naming an id).
pub proof fn law_git_error_without_commits(source: Seq<char>)
    ensures
        spec_parse_git_graph(source) is Err <==> (match first_content(lines(source), 0) {
            None => true,
            Some(h) => produced_from(lines(source), h + 1) == 0,
        }),
        spec_parse_git_graph(source) matches Err(m) ==> m == no_commits_msg(),
{
    let ls = lines(source);
    if let Some(h) = first_content(ls, 0) {
        lemma_first_content_bound(ls, 0);
        lemma_run_lines_commits(ls, h + 1, initial_state());
    }
}

/// Statement numbers: a commit, merge or cherry-pick statement takes the next
/// number; a commit without `id:` is named `c<n>`, a merge without an id
/// `m<n>`, and a cherry-pick always `cp<n>`.
pub proof fn law_statement_numbering(st: GraphState, line_no: nat, line: Seq<char>)
    requires
        is_content_line(line),
    ensures
        graph_step(st, line_no, line).counter == st.counter + if counts_statement(line) { 1nat } else { 0nat },
        graph_step(st, line_no, line).commits.len() == st.commits.len() + 1 ==> {
            let c = graph_step(st, line_no, line).commits.last();
            let k = (st.counter + 1) as nat;
            &&& c.is_cherry_pick ==> c.id == seq!['c', 'p'] + decimal(k)
            &&& (c.is_merge && !contains(lower(spec_trim_after_keyword(trim(line), "merge"@)), "id:"@)) ==> c.id == seq!['m'] + decimal(k)
            &&& (!c.is_merge && !c.is_cherry_pick && lookup(spec_parse_options(spec_trim_after_keyword(trim(line), "commit"@)), "id"@) is None)
                ==> c.id == seq!['c'] + decimal(k)
        },
{
    lemma_graph_step_counter(st, line_no, line);
    lemma_statement_kinds_disjoint(fold(trim(line)));
}

/// A `commit` statement adds one commit on the current branch: its message is
/// the value of its `msg:` option and its tag that of its `tag:` option
/// (`None` where the option is missing), its id the `id:` option or `c<n>`,
/// and it is neither a merge nor a cherry-pick.
pub proof fn law_commit_statement(st: GraphState, line_no: nat, line: Seq<char>)
    requires
        is_content_line(line),
        starts_with(fold(trim(line)), "commit"@),
    ensures
        ({
            let st2 = graph_step(st, line_no, line);
            let opts = spec_parse_options(spec_trim_after_keyword(trim(line), "commit"@));
            let c = st2.commits.last();
            &&& st2.commits.len() == st.commits.len() + 1
            &&& st2.commits.drop_last() == st.commits
            &&& c.message == lookup(opts, "msg"@)
            &&& c.tag == lookup(opts, "tag"@)
            &&& c.id == (match lookup(opts, "id"@) {
                Some(v) => v,
                None => seq!['c'] + decimal(st.counter + 1),
            })
            &&& c.branch == st.current
            &&& !c.is_merge && c.merge_from is None
            &&& !c.is_cherry_pick && c.cherry_pick_from_id is None
        }),
{
    let st2 = graph_step(st, line_no, line);
    assert(st2.commits.drop_last() =~= st.commits);
}

/// A `merge <branch>` statement adds one merge commit on the current branch
/// that records the merged branch (quotes stripped, any `id:` part cut off)
/// in `merge_from` and carries the message "Merge <branch>".
pub proof fn law_merge_statement(st: GraphState, line_no: nat, line: Seq<char>)
    requires
        is_content_line(line),
        starts_with(fold(trim(line)), "merge"@),
    ensures
        ({
            let st2 = graph_step(st, line_no, line);
            let from = merge_parts(spec_trim_after_keyword(trim(line), "merge"@), st.counter + 1).0;
            let c = st2.commits.last();
            &&& st2.commits.len() == st.commits.len() + 1
            &&& st2.commits.drop_last() == st.commits
            &&& c.is_merge && c.merge_from == Some(from)
            &&& c.message == Some("Merge "@ + from)
            &&& c.branch == st.current
            &&& !c.is_cherry_pick && c.tag is None
            &&& st2.branches == st.branches && st2.current == st.current
        }),
{
    lemma_statement_kinds_disjoint(fold(trim(line)));
    let st2 = graph_step(st, line_no, line);
    assert(st2.commits.drop_last() =~= st.commits);
}

/// A cherry-pick statement that names a source id adds one commit on the
/// current branch marked as a cherry-pick of that id, with the message
/// "cherry-pick <id>"; one that names none adds no commit and a warning.
pub proof fn law_cherry_pick_statement(st: GraphState, line_no: nat, line: Seq<char>)
    requires
        is_content_line(line),
        starts_with(fold(trim(line)), "cherry-pick"@),
    ensures
        ({
            let st2 = graph_step(st, line_no, line);
            let src = cherry_source(trim(line), "cherry-pick"@);
            let c = st2.commits.last();
            &&& src.len() > 0 ==> {
                &&& st2.commits.len() == st.commits.len() + 1
                &&& st2.commits.drop_last() == st.commits
                &&& c.is_cherry_pick && c.cherry_pick_from_id == Some(src)
                &&& c.message == Some("cherry-pick "@ + src)
                &&& c.branch == st.current
                &&& !c.is_merge
            }
            &&& src.len() == 0 ==> st2.commits == st.commits && st2.warnings.len() == st.warnings.len() + 1
        }),
{
    lemma_statement_kinds_disjoint(fold(trim(line)));
    let st2 = graph_step(st, line_no, line);
    if cherry_source(trim(line), "cherry-pick"@).len() > 0 {
        assert(st2.commits.drop_last() =~= st.commits);
    }
}

/// `branch <name>` and `checkout <name>` with a name switch the current branch
/// to that name, which is then a declared branch, and add no commit.
pub proof fn law_branch_switch(st: GraphState, line_no: nat, line: Seq<char>)
    requires
        is_content_line(line),
        starts_with(fold(trim(line)), "branch"@) || starts_with(fold(trim(line)), "checkout"@),
    ensures
        ({
            let st2 = graph_step(st, line_no, line);
            let t = trim(line);
            let name = if starts_with(fold(t), "branch"@) {
                spec_branch_name_and_order(spec_trim_after_keyword(t, "branch"@)).0
            } else {
                spec_strip_quotes(spec_trim_after_keyword(t, "checkout"@))
            };
            &&& st2.commits == st.commits
            &&& name.len() > 0 ==> st2.current == name && branch_declared(st2.branches, name)
            &&& name.len() == 0 ==> st2.current == st.current && st2.warnings.len() == st.warnings.len() + 1
        }),
{
    let lo = fold(trim(line));
    lemma_statement_kinds_disjoint(lo);
    reveal_strlit("branch");
    reveal_strlit("checkout");
    if starts_with(lo, "checkout"@) {
        assert(lo.take(8)[0] == lo[0]);
    }
    if starts_with(lo, "branch"@) {
        assert(lo.take(6)[0] == lo[0]);
    }
    let st2 = graph_step(st, line_no, line);
    let t = trim(line);
    let name = if starts_with(lo, "branch"@) {
        spec_branch_name_and_order(spec_trim_after_keyword(t, "branch"@)).0
    } else {
        spec_strip_quotes(spec_trim_after_keyword(t, "checkout"@))
    };
    if name.len() > 0 {
        lemma_ensure_branch_found(st.branches, name, if starts_with(lo, "branch"@) {
            spec_branch_name_and_order(spec_trim_after_keyword(t, "branch"@)).1
        } else {
            None
        });
    }
}

proof fn lemma_ensure_branch_found(bs: Seq<BranchView>, name: Seq<char>, order: Option<u32>)
    ensures
        branch_declared(spec_ensure_branch(bs, name, order), name),
{
    lemma_find_branch_props(bs, name, 0);
    let r = spec_ensure_branch(bs, name, order);
    match find_branch(bs, name, 0) {
        Some(i) => {
            assert(r[i].name == name);
        },
        None => {
            assert(r[bs.len() as int].name == name);
        },
    }
}

/// The id that the numbered statement `line` gives its commit when it holds
/// number `k`: a commit its `id:` or `c<k>`, a merge its non-empty `id:` or
/// `m<k>`, a cherry-pick that names an id `cp<k>`; `None` when it adds no commit.
pub open spec fn statement_id(line: Seq<char>, k: nat) -> Option<Seq<char>> {
    let t = trim(line);
    let lo = fold(t);
    if starts_with(lo, "commit"@) {
        Some(
            match lookup(spec_parse_options(spec_trim_after_keyword(t, "commit"@)), "id"@) {
                Some(v) => v,
                None => seq!['c'] + decimal(k),
            },
        )
    } else if starts_with(lo, "merge"@) {
        Some(merge_parts(spec_trim_after_keyword(t, "merge"@), k).1)
    } else if starts_with(lo, "cherry-pick"@) {
        if cherry_source(t, "cherry-pick"@).len() > 0 { Some(seq!['c', 'p'] + decimal(k)) } else { None }
    } else if starts_with(lo, "cherrypick"@) {
        if cherry_source(t, "cherrypick"@).len() > 0 { Some(seq!['c', 'p'] + decimal(k)) } else { None }
    } else {
        None
    }
}

/// Commit ids given by the lines from index `j` on, the numbered statements
/// among them taking the numbers `k + 1`, `k + 2`, ... in order.
pub open spec fn body_ids(ls: Seq<Seq<char>>, j: int, k: nat) -> Seq<Seq<char>>
    decreases ls.len() - j,
{
    if j < 0 || j >= ls.len() {
        seq![]
    } else if counts_statement(ls[j]) {
        match statement_id(ls[j], k + 1) {
            Some(id) => seq![id] + body_ids(ls, j + 1, k + 1),
            None => body_ids(ls, j + 1, k + 1),
        }
    } else {
        body_ids(ls, j + 1, k)
    }
}

pub open spec fn commit_ids(cs: Seq<CommitView>) -> Seq<Seq<char>> {
    cs.map_values(|c: CommitView| c.id)
}

proof fn lemma_graph_step_ids(st: GraphState, line_no: nat, line: Seq<char>)
    requires
        is_content_line(line),
    ensures
        commit_ids(graph_step(st, line_no, line).commits) == commit_ids(st.commits) + if counts_statement(line) {
            match statement_id(line, st.counter + 1) {
                Some(id) => seq![id],
                None => seq![],
            }
        } else {
            seq![]
        },
{
    lemma_statement_kinds_disjoint(fold(trim(line)));
    let st2 = graph_step(st, line_no, line);
    let extra: Seq<Seq<char>> = if counts_statement(line) {
        match statement_id(line, st.counter + 1) {
            Some(id) => seq![id],
            None => seq![],
        }
    } else {
        seq![]
    };
    assert(commit_ids(st2.commits) =~= commit_ids(st.commits) + extra);
}

proof fn lemma_run_lines_ids(ls: Seq<Seq<char>>, j: int, st: GraphState)
    requires
        0 <= j,
    ensures
        commit_ids(run_lines(ls, j, st).commits) == commit_ids(st.commits) + body_ids(ls, j, st.counter),
    decreases ls.len() - j,
{
    if j < ls.len() {
        if is_content_line(ls[j]) {
            let st2 = graph_step(st, (j + 1) as nat, ls[j]);
            lemma_graph_step_ids(st, (j + 1) as nat, ls[j]);
            lemma_graph_step_counter(st, (j + 1) as nat, ls[j]);
            lemma_run_lines_ids(ls, j + 1, st2);
            if counts_statement(ls[j]) {
                match statement_id(ls[j], st.counter + 1) {
                    Some(id) => {
                        assert(commit_ids(st.commits) + seq![id] + body_ids(ls, j + 1, st.counter + 1) =~= commit_ids(
                            st.commits,
                        ) + (seq![id] + body_ids(ls, j + 1, st.counter + 1)));
                    },
                    None => {
                        assert(commit_ids(st.commits) + seq![] =~= commit_ids(st.commits));
                    },
                }
            } else {
                assert(commit_ids(st.commits) + seq![] =~= commit_ids(st.commits));
            }
        } else {
            assert(!counts_statement(ls[j]));
            lemma_run_lines_ids(ls, j + 1, st);
        }
    } else {
        assert(commit_ids(st.commits) + seq![] =~= commit_ids(st.commits));
    }
}

/// Statement numbering over a whole graph: the commit, merge and cherry-pick
/// statements of the body take the numbers 1, 2, ... in order (a cherry-pick
/// without an id too), and the commits of a parsed graph carry, in order, the
/// ids those numbered statements give.
pub proof fn law_graph_commit_ids(source: Seq<char>)
    ensures
        spec_parse_git_graph(source) matches Ok(g) ==> (first_content(lines(source), 0) matches Some(h)
            && commit_ids(g.commits) == body_ids(lines(source), h + 1, 0)),
{
    let ls = lines(source);
    if let Some(h) = first_content(ls, 0) {
        lemma_first_content_bound(ls, 0);
        let st0 = initial_state();
        lemma_run_lines_ids(ls, h + 1, st0);
        assert(commit_ids(st0.commits) =~= seq![]);
        assert(seq![] + body_ids(ls, h + 1, 0) =~= body_ids(ls, h + 1, 0));
    }
}

// ─────────────────────────────────────────────────────────────────────────────
// The whole lane assignment
// ─────────────────────────────────────────────────────────────────────────────

/// Branch `b` asks for lane `v` with `order:`.
pub open spec fn asks_lane(b: BranchView, v: int) -> bool {
    b.order matches Some(o) && o as int == v
}

/// Some branch asks for lane `v` with `order:`.
pub open spec fn explicit_order(bs: Seq<BranchView>, v: int) -> bool {
    exists|i: int| 0 <= i < bs.len() && asks_lane(#[trigger] bs[i], v)
}

proof fn lemma_free_search_below(occ: Seq<int>, k: int, bound: int, v: int)
    requires
        k <= v < free_search(occ, k, bound),
    ensures
        occ.contains(v),
    decreases bound - k,
{
    if k < bound && occ.contains(k) && v > k {
        lemma_free_search_below(occ, k + 1, bound, v);
    }
}

proof fn lemma_ordered_pass(bs: Seq<BranchView>, i: int)
    requires
        0 <= i <= bs.len(),
        forall|a: int, b: int| 0 <= a < b < bs.len() ==> (#[trigger] bs[a]).name != (#[trigger] bs[b]).name,
    ensures
        forall|n: Seq<char>| #[trigger] ordered_pass(bs, i).0.contains_key(n) <==> exists|j: int| 0 <= j < i && (#[trigger] bs[j]).name == n && bs[j].order is Some,
        forall|j: int| 0 <= j < i && (#[trigger] bs[j]).order is Some ==> ordered_pass(bs, i).0[bs[j].name] == bs[j].order.unwrap() as int,
        forall|v: int| #[trigger] ordered_pass(bs, i).1.contains(v) <==> exists|j: int| 0 <= j < i && asks_lane(#[trigger] bs[j], v),
    decreases i,
{
    if i > 0 {
        lemma_ordered_pass(bs, i - 1);
        let (m, occ) = ordered_pass(bs, i - 1);
        let (m2, occ2) = ordered_pass(bs, i);
        assert forall|n: Seq<char>| #[trigger] m2.contains_key(n) <==> exists|j: int| 0 <= j < i && (#[trigger] bs[j]).name == n && bs[j].order is Some by {
            if m2.contains_key(n) && !(bs[i - 1].order is Some && n == bs[i - 1].name) {
                assert(m.contains_key(n));
            }
            if bs[i - 1].order is Some && n == bs[i - 1].name {
                assert(bs[i - 1].name == n);
            }
        }
        assert forall|j: int| 0 <= j < i && (#[trigger] bs[j]).order is Some implies m2[bs[j].name] == bs[j].order.unwrap() as int by {
            if j < i - 1 {
                assert(bs[j].name != bs[i - 1].name);
            }
        }
        assert forall|v: int| #[trigger] occ2.contains(v) <==> exists|j: int| 0 <= j < i && asks_lane(#[trigger] bs[j], v) by {
            if occ2.contains(v) {
                let k = choose|k: int| 0 <= k < occ2.len() && occ2[k] == v;
                if k < occ.len() {
                    assert(occ[k] == v);
                    assert(occ.contains(v));
                } else {
                    assert(asks_lane(bs[i - 1], v));
                }
            }
            if exists|j: int| 0 <= j < i && asks_lane(#[trigger] bs[j], v) {
                let j = choose|j: int| 0 <= j < i && asks_lane(#[trigger] bs[j], v);
                if j < i - 1 {
                    assert(occ.contains(v));
                    let k = choose|k: int| 0 <= k < occ.len() && occ[k] == v;
                    assert(occ2[k] == v);
                } else {
                    assert(occ2[occ2.len() - 1] == v);
                }
            }
        }
    }
}

/// The second pass from branch `i`, for branches with distinct names: each
/// branch without `order:` and without a lane yet takes the least lane at or
/// above `next` that `occ` does not hold, all lanes below `next` being held.
proof fn lemma_fill(bs: Seq<BranchView>, i: int, m: Map<Seq<char>, int>, occ: Seq<int>, next: int)
    requires
        0 <= i <= bs.len(),
        0 <= next,
        forall|a: int, b: int| 0 <= a < b < bs.len() ==> (#[trigger] bs[a]).name != (#[trigger] bs[b]).name,
        forall|v: int| 0 <= v < next ==> occ.contains(v),
        forall|k: int| i <= k < bs.len() && (#[trigger] bs[k]).order is None ==> !m.contains_key(bs[k].name),
        forall|k: int| i <= k < bs.len() && (#[trigger] bs[k]).order is Some ==> m.contains_key(bs[k].name),
    ensures
        forall|n: Seq<char>| #[trigger] fill_pass(bs, i, m, occ, next).contains_key(n) <==> (m.contains_key(n)
            || exists|k: int| i <= k < bs.len() && (#[trigger] bs[k]).name == n),
        forall|n: Seq<char>| m.contains_key(n) ==> #[trigger] fill_pass(bs, i, m, occ, next)[n] == m[n],
        forall|k: int| i <= k < bs.len() && (#[trigger] bs[k]).order is None ==> {
            let l = fill_pass(bs, i, m, occ, next)[bs[k].name];
            &&& l >= next
            &&& !occ.contains(l)
            &&& forall|v: int| 0 <= v < l ==> occ.contains(v) || exists|j: int| i <= j < k && (#[trigger] bs[j]).order is None
                && fill_pass(bs, i, m, occ, next)[bs[j].name] == v
        },
        forall|j: int, k: int| i <= j < k < bs.len() && (#[trigger] bs[j]).order is None && (#[trigger] bs[k]).order is None
            ==> fill_pass(bs, i, m, occ, next)[bs[j].name] < fill_pass(bs, i, m, occ, next)[bs[k].name],
    decreases bs.len() - i,
{
    let r = fill_pass(bs, i, m, occ, next);
    if i < bs.len() {
        if m.contains_key(bs[i].name) {
            assert(bs[i].order is Some);
            lemma_fill(bs, i + 1, m, occ, next);
            assert(r == fill_pass(bs, i + 1, m, occ, next));
            assert forall|n: Seq<char>| #[trigger] r.contains_key(n) <==> (m.contains_key(n)
                || exists|k: int| i <= k < bs.len() && (#[trigger] bs[k]).name == n) by {
                if exists|k: int| i <= k < bs.len() && (#[trigger] bs[k]).name == n {
                    let k = choose|k: int| i <= k < bs.len() && (#[trigger] bs[k]).name == n;
                    if k == i {
                        assert(m.contains_key(n));
                    } else {
                        assert(i + 1 <= k);
                    }
                }
            }
        } else {
            let bound = seq_max(occ) + 1;
            let f = least_free(occ, next);
            lemma_seq_max(occ);
            lemma_free_search(occ, next, bound);
            let m2 = m.insert(bs[i].name, f);
            let occ2 = occ.push(f);
            assert forall|v: int| 0 <= v < f + 1 implies occ2.contains(v) by {
                if v < next {
                    assert(occ.contains(v));
                } else if v < f {
                    lemma_free_search_below(occ, next, bound, v);
                }
                if v < f {
                    let j = choose|j: int| 0 <= j < occ.len() && occ[j] == v;
                    assert(occ2[j] == v);
                } else {
                    assert(occ2[occ.len() as int] == v);
                }
            }
            assert forall|k: int| i + 1 <= k < bs.len() && (#[trigger] bs[k]).order is None implies !m2.contains_key(bs[k].name) by {
                assert(bs[k].name != bs[i].name);
            }
            assert forall|k: int| i + 1 <= k < bs.len() && (#[trigger] bs[k]).order is Some implies m2.contains_key(bs[k].name) by {}
            lemma_fill(bs, i + 1, m2, occ2, f + 1);
            assert(r == fill_pass(bs, i + 1, m2, occ2, f + 1));
            assert(r[bs[i].name] == f);
            assert forall|n: Seq<char>| #[trigger] r.contains_key(n) <==> (m.contains_key(n)
                || exists|k: int| i <= k < bs.len() && (#[trigger] bs[k]).name == n) by {
                if exists|k: int| i <= k < bs.len() && (#[trigger] bs[k]).name == n {
                    let k = choose|k: int| i <= k < bs.len() && (#[trigger] bs[k]).name == n;
                    if k == i {
                        assert(m2.contains_key(n));
                    } else {
                        assert(i + 1 <= k);
                    }
                }
                if r.contains_key(n) && !m.contains_key(n) && !(exists|k: int| i + 1 <= k < bs.len() && (#[trigger] bs[k]).name == n) {
                    assert(m2.contains_key(n));
                    assert(n == bs[i].name);
                }
            }
            assert forall|n: Seq<char>| m.contains_key(n) implies #[trigger] r[n] == m[n] by {
                assert(n != bs[i].name);
                assert(m2.contains_key(n));
            }
            assert forall|k: int| i <= k < bs.len() && (#[trigger] bs[k]).order is None implies {
                let l = r[bs[k].name];
                &&& l >= next
                &&& !occ.contains(l)
                &&& forall|v: int| 0 <= v < l ==> occ.contains(v) || exists|j: int| i <= j < k && (#[trigger] bs[j]).order is None
                    && r[bs[j].name] == v
            } by {
                let l = r[bs[k].name];
                if k == i {
                    assert forall|v: int| 0 <= v < l implies occ.contains(v) || exists|j: int| i <= j < k && (#[trigger] bs[j]).order is None
                        && r[bs[j].name] == v by {
                        if v >= next {
                            lemma_free_search_below(occ, next, bound, v);
                        }
                    }
                } else {
                    assert(!occ2.contains(l));
                    assert(l >= f + 1);
                    assert(!occ.contains(l)) by {
                        if occ.contains(l) {
                            let j = choose|j: int| 0 <= j < occ.len() && occ[j] == l;
                            assert(occ2[j] == l);
                        }
                    }
                    assert forall|v: int| 0 <= v < l implies occ.contains(v) || exists|j: int| i <= j < k && (#[trigger] bs[j]).order is None
                        && r[bs[j].name] == v by {
                        if occ2.contains(v) {
                            let q = choose|q: int| 0 <= q < occ2.len() && occ2[q] == v;
                            if q < occ.len() {
                                assert(occ[q] == v);
                            } else {
                                assert(bs[i].order is None && r[bs[i].name] == v);
                            }
                        } else {
                            let j = choose|j: int| i + 1 <= j < k && (#[trigger] bs[j]).order is None && r[bs[j].name] == v;
                            assert(bs[j].order is None && r[bs[j].name] == v);
                        }
                    }
                }
            }
            assert forall|j: int, k: int| i <= j < k < bs.len() && (#[trigger] bs[j]).order is None && (#[trigger] bs[k]).order is None
                implies r[bs[j].name] < r[bs[k].name] by {
                if j == i {
                    assert(r[bs[k].name] >= f + 1);
                }
            }
        }
    }
}

/// With distinct branch names: every branch gets a lane and nothing else does;
/// a branch with `order:` gets that lane; the others, in declaration order,
/// get strictly increasing lanes, each the least lane that no `order:` asks
/// for and no earlier such branch took.
pub proof fn law_lane_assignment(bs: Seq<BranchView>)
    requires
        forall|a: int, b: int| 0 <= a < b < bs.len() ==> (#[trigger] bs[a]).name != (#[trigger] bs[b]).name,
    ensures
        forall|n: Seq<char>| #[trigger] spec_assign_branch_lanes(bs).contains_key(n) <==> exists|j: int| 0 <= j < bs.len() && (#[trigger] bs[j]).name == n,
        forall|j: int| 0 <= j < bs.len() && (#[trigger] bs[j]).order is Some ==> spec_assign_branch_lanes(bs)[bs[j].name] == bs[j].order.unwrap() as int,
        forall|j: int, k: int| 0 <= j < k < bs.len() && (#[trigger] bs[j]).order is None && (#[trigger] bs[k]).order is None
            ==> spec_assign_branch_lanes(bs)[bs[j].name] < spec_assign_branch_lanes(bs)[bs[k].name],
        forall|k: int| 0 <= k < bs.len() && (#[trigger] bs[k]).order is None ==> {
            let l = spec_assign_branch_lanes(bs)[bs[k].name];
            &&& 0 <= l
            &&& !explicit_order(bs, l)
            &&& forall|v: int| 0 <= v < l ==> explicit_order(bs, v) || exists|j: int| 0 <= j < k && (#[trigger] bs[j]).order is None
                && spec_assign_branch_lanes(bs)[bs[j].name] == v
        },
{
    let (m0, occ0) = ordered_pass(bs, bs.len() as int);
    lemma_ordered_pass(bs, bs.len() as int);
    assert forall|k: int| 0 <= k < bs.len() && (#[trigger] bs[k]).order is None implies !m0.contains_key(bs[k].name) by {
        if m0.contains_key(bs[k].name) {
            let j = choose|j: int| 0 <= j < bs.len() && (#[trigger] bs[j]).name == bs[k].name && bs[j].order is Some;
            assert(j != k);
        }
    }
    assert forall|k: int| 0 <= k < bs.len() && (#[trigger] bs[k]).order is Some implies m0.contains_key(bs[k].name) by {
        assert(bs[k].name == bs[k].name);
    }
    lemma_fill(bs, 0, m0, occ0, 0);
    let r = spec_assign_branch_lanes(bs);
    assert forall|v: int| occ0.contains(v) <==> explicit_order(bs, v) by {
        if occ0.contains(v) {
            let j = choose|j: int| 0 <= j < bs.len() && asks_lane(#[trigger] bs[j], v);
            assert(asks_lane(bs[j], v));
        }
        if explicit_order(bs, v) {
            let j = choose|j: int| 0 <= j < bs.len() && asks_lane(#[trigger] bs[j], v);
            assert(asks_lane(bs[j], v));
        }
    }
    assert forall|n: Seq<char>| #[trigger] r.contains_key(n) <==> exists|j: int| 0 <= j < bs.len() && (#[trigger] bs[j]).name == n by {
        if m0.contains_key(n) {
            let j = choose|j: int| 0 <= j < bs.len() && (#[trigger] bs[j]).name == n && bs[j].order is Some;
            assert(bs[j].name == n);
        }
    }
    assert forall|j: int| 0 <= j < bs.len() && (#[trigger] bs[j]).order is Some implies r[bs[j].name] == bs[j].order.unwrap() as int by {
        assert(m0.contains_key(bs[j].name));
    }
}

} // verus!
