//! Mermaid flowchart source text to a `Flowchart` AST: node shapes, edge
//! styles, chained and `&`-joined edges, subgraphs, `classDef`/`class`/`style`
//! and `linkStyle` directives, and `%% @pos` position hints.
//!
//! Colors are kept as the RGBA bytes the source gives; stroke widths and hint
//! coordinates as the numeric text the source gives, checked to be float literals.
use vstd::prelude::*;
use crate::text::{
    chars_of, string_of, append, concat, eq, trim, trim_of, trim_start, trim_start_of, trim_end,
    trim_end_of, lower, to_lower, fold, to_fold, upper, to_upper, starts_with, starts_with_exec, ends_with,
    ends_with_exec, find, find_exec, find_from, find_from_exec, find_char, find_char_exec,
    rfind_char, rfind_char_exec, contains, contains_exec, split, split_char, words, split_ws,
    lines, lines_of, join, join_exec, decimal, decimal_exec, parse_unsigned, parse_unsigned_exec,
    slice_of, is_ws, is_ws_char, is_ascii_alnum, is_ascii_alnum_char, lemma_find_from_props,
    lemma_find_char_from_props, lemma_rfind_char_props, lemma_skip_ws_bounds, occurs_at, occurs_at_exec,
};

verus! {

// ─────────────────────────────────────────────────────────────────────────────
// AST
// ─────────────────────────────────────────────────────────────────────────────

#[derive(Debug, Clone, Copy, PartialEq, Eq, Structural)]
pub enum FlowDirection {
    TopDown,
    BottomUp,
    LeftRight,
    RightLeft,
}

#[derive(Debug, Clone, Copy, PartialEq, Eq, Structural)]
pub enum NodeShape {
    Rectangle,
    RoundRect,
    Stadium,
    Subroutine,
    Cylinder,
    Circle,
    DoubleCircle,
    Diamond,
    Hexagon,
    Parallelogram,
    Trapezoid,
    TrapezoidInv,
    Asymmetric,
}

#[derive(Debug, Clone, Copy, PartialEq, Eq, Structural)]
pub enum EdgeStyle {
    Solid,
    Dotted,
    Thick,
}

#[derive(Debug, Clone, Copy, PartialEq, Eq, Structural)]
pub enum ArrowHead {
    NoArrow,
    Arrow,
    Circle,
    Cross,
}

/// An RGBA color as written in the source (alpha not premultiplied).
#[derive(Debug, Clone, Copy, PartialEq, Eq, Structural)]
pub struct Rgba {
    pub r: u8,
    pub g: u8,
    pub b: u8,
    pub a: u8,
}

/// Per-node style properties.
#[derive(Debug, Clone)]
pub struct NodeStyle {
    pub fill: Option<Rgba>,
    pub stroke: Option<Rgba>,
    /// Stroke width as written (a number, `px` dropped), a float literal.
    pub stroke_width: Option<String>,
    pub color: Option<Rgba>,
}

/// Per-edge style properties.
#[derive(Debug, Clone)]
pub struct LinkStyle {
    pub stroke: Option<Rgba>,
    /// Stroke width as written (a number, `px` dropped), a float literal.
    pub stroke_width: Option<String>,
    pub interpolate_basis: bool,
}

#[derive(Debug, Clone)]
pub struct FlowNode {
    pub id: String,
    pub label: String,
    pub shape: NodeShape,
}

#[derive(Debug, Clone)]
pub struct FlowEdge {
    pub from: String,
    pub to: String,
    pub label: Option<String>,
    pub style: EdgeStyle,
    pub arrow_start: ArrowHead,
    pub arrow_end: ArrowHead,
}

#[derive(Debug, Clone)]
pub struct FlowSubgraph {
    pub id: String,
    pub title: Option<String>,
    pub node_ids: Vec<String>,
    pub child_subgraph_ids: Vec<String>,
    pub direction: Option<FlowDirection>,
}

#[derive(Debug, Clone, PartialEq, Eq)]
pub struct FlowchartWarning {
    /// 1-indexed source line.
    pub line: usize,
    pub message: String,
}

/// A `%% @pos <node_id> <x> <y>` hint; coordinates as written, float literals.
#[derive(Debug, Clone)]
pub struct PositionHint {
    pub node_id: String,
    pub x: String,
    pub y: String,
}

/// A parsed flowchart.
#[derive(Debug, Clone)]
pub struct Flowchart {
    pub direction: FlowDirection,
    pub nodes: Vec<FlowNode>,
    pub edges: Vec<FlowEdge>,
    pub subgraphs: Vec<FlowSubgraph>,
    /// `classDef` styles by class name (a later definition replaces an earlier one).
    pub class_defs: Vec<(String, NodeStyle)>,
    /// Class of each node named in a `class` directive.
    pub node_classes: Vec<(String, String)>,
    /// `style` directive properties by node id (later directives overlay earlier ones).
    pub node_styles: Vec<(String, NodeStyle)>,
    /// `linkStyle <index>` styles by edge index.
    pub link_styles: Vec<(usize, LinkStyle)>,
    pub default_link_style: Option<LinkStyle>,
    pub position_hints: Vec<PositionHint>,
    pub warnings: Vec<FlowchartWarning>,
}

// ─────────────────────────────────────────────────────────────────────────────
// Plain-value models
// ─────────────────────────────────────────────────────────────────────────────

pub open spec fn ostr(o: Option<String>) -> Option<Seq<char>> {
    match o {
        Some(s) => Some(s@),
        None => None,
    }
}

pub struct StyleView {
    pub fill: Option<Rgba>,
    pub stroke: Option<Rgba>,
    pub stroke_width: Option<Seq<char>>,
    pub color: Option<Rgba>,
}

pub open spec fn style_view(s: NodeStyle) -> StyleView {
    StyleView { fill: s.fill, stroke: s.stroke, stroke_width: ostr(s.stroke_width), color: s.color }
}

pub open spec fn empty_style() -> StyleView {
    StyleView { fill: None, stroke: None, stroke_width: None, color: None }
}

pub struct LinkView {
    pub stroke: Option<Rgba>,
    pub stroke_width: Option<Seq<char>>,
    pub interpolate_basis: bool,
}

pub open spec fn link_view(s: LinkStyle) -> LinkView {
    LinkView { stroke: s.stroke, stroke_width: ostr(s.stroke_width), interpolate_basis: s.interpolate_basis }
}

pub struct NodeView {
    pub id: Seq<char>,
    pub label: Seq<char>,
    pub shape: NodeShape,
}

pub open spec fn node_view(n: FlowNode) -> NodeView {
    NodeView { id: n.id@, label: n.label@, shape: n.shape }
}

pub struct EdgeView {
    pub from: Seq<char>,
    pub to: Seq<char>,
    pub label: Option<Seq<char>>,
    pub style: EdgeStyle,
    pub arrow_start: ArrowHead,
    pub arrow_end: ArrowHead,
}

pub open spec fn edge_view(e: FlowEdge) -> EdgeView {
    EdgeView { from: e.from@, to: e.to@, label: ostr(e.label), style: e.style, arrow_start: e.arrow_start, arrow_end: e.arrow_end }
}

pub open spec fn strs_view(v: Seq<String>) -> Seq<Seq<char>> {
    v.map_values(|s: String| s@)
}

pub struct SubgraphView {
    pub id: Seq<char>,
    pub title: Option<Seq<char>>,
    pub node_ids: Seq<Seq<char>>,
    pub child_subgraph_ids: Seq<Seq<char>>,
    pub direction: Option<FlowDirection>,
}

pub open spec fn subgraph_view(s: FlowSubgraph) -> SubgraphView {
    SubgraphView {
        id: s.id@,
        title: ostr(s.title),
        node_ids: strs_view(s.node_ids@),
        child_subgraph_ids: strs_view(s.child_subgraph_ids@),
        direction: s.direction,
    }
}

pub struct WarnView {
    pub line: nat,
    pub message: Seq<char>,
}

pub struct HintView {
    pub node_id: Seq<char>,
    pub x: Seq<char>,
    pub y: Seq<char>,
}

pub struct ChartView {
    pub direction: FlowDirection,
    pub nodes: Seq<NodeView>,
    pub edges: Seq<EdgeView>,
    pub subgraphs: Seq<SubgraphView>,
    pub class_defs: Seq<(Seq<char>, StyleView)>,
    pub node_classes: Seq<(Seq<char>, Seq<char>)>,
    pub node_styles: Seq<(Seq<char>, StyleView)>,
    pub link_styles: Seq<(usize, LinkView)>,
    pub default_link_style: Option<LinkView>,
    pub position_hints: Seq<HintView>,
    pub warnings: Seq<WarnView>,
}

pub open spec fn chart_view(f: Flowchart) -> ChartView {
    ChartView {
        direction: f.direction,
        nodes: f.nodes@.map_values(|n: FlowNode| node_view(n)),
        edges: f.edges@.map_values(|e: FlowEdge| edge_view(e)),
        subgraphs: f.subgraphs@.map_values(|s: FlowSubgraph| subgraph_view(s)),
        class_defs: f.class_defs@.map_values(|p: (String, NodeStyle)| (p.0@, style_view(p.1))),
        node_classes: f.node_classes@.map_values(|p: (String, String)| (p.0@, p.1@)),
        node_styles: f.node_styles@.map_values(|p: (String, NodeStyle)| (p.0@, style_view(p.1))),
        link_styles: f.link_styles@.map_values(|p: (usize, LinkStyle)| (p.0, link_view(p.1))),
        default_link_style: match f.default_link_style {
            Some(l) => Some(link_view(l)),
            None => None,
        },
        position_hints: f.position_hints@.map_values(|h: PositionHint| HintView { node_id: h.node_id@, x: h.x@, y: h.y@ }),
        warnings: f.warnings@.map_values(|w: FlowchartWarning| WarnView { line: w.line as nat, message: w.message@ }),
    }
}

/// Association-list update: replace the value of the first entry with key
/// `k`, or append `(k, v)`.
pub open spec fn assoc_put<K, V>(l: Seq<(K, V)>, k: K, v: V) -> Seq<(K, V)> {
    match assoc_index(l, k, 0) {
        Some(i) => l.update(i, (k, v)),
        None => l.push((k, v)),
    }
}

/// Index of the first entry with key `k`, from `i` on.
pub open spec fn assoc_index<K, V>(l: Seq<(K, V)>, k: K, i: int) -> Option<int>
    decreases l.len() - i,
{
    if i < 0 || i >= l.len() {
        None
    } else if l[i].0 == k {
        Some(i)
    } else {
        assoc_index(l, k, i + 1)
    }
}

// ─────────────────────────────────────────────────────────────────────────────
// Small text helpers
// ─────────────────────────────────────────────────────────────────────────────

/// `s` without one trailing `;`, then without trailing whitespace.
pub open spec fn strip_semicolon(s: Seq<char>) -> Seq<char> {
    trim_end(if s.len() > 0 && s.last() == ';' { s.drop_last() } else { s })
}

fn strip_trailing_semicolon(v: &[char]) -> (r: Vec<char>)
    ensures
        r@ == strip_semicolon(v@),
{
    if v.len() > 0 && v[v.len() - 1] == ';' {
        trim_end_of(&slice_of(v, 0, v.len() - 1))
    } else {
        trim_end_of(v)
    }
}

/// `s` cut at its first whitespace: the part before and the part after that
/// whitespace character (`splitn(2, char::is_whitespace)`).
pub open spec fn split_first_ws(s: Seq<char>) -> (Seq<char>, Option<Seq<char>>) {
    let e = crate::text::word_end(s, 0);
    if e < s.len() {
        (s.take(e), Some(s.skip(e + 1)))
    } else {
        (s, None)
    }
}

fn split_first_ws_exec(v: &[char]) -> (r: (Vec<char>, Option<Vec<char>>))
    ensures
        r.0@ == split_first_ws(v@).0,
        match r.1 {
            Some(t) => split_first_ws(v@).1 == Some(t@),
            None => split_first_ws(v@).1 is None,
        },
{
    let e = crate::text::word_end_exec(v, 0);
    if e < v.len() {
        (slice_of(v, 0, e), Some(slice_of(v, e + 1, v.len())))
    } else {
        (slice_of(v, 0, v.len()), None)
    }
}

pub open spec fn opt_or_empty(o: Option<Seq<char>>) -> Seq<char> {
    match o {
        Some(s) => s,
        None => seq![],
    }
}

// ─────────────────────────────────────────────────────────────────────────────
// Direction
// ─────────────────────────────────────────────────────────────────────────────

/// Direction from a header or `direction` line: the second whitespace token
/// (semicolons dropped), `TD`/`TB` top-down, `BT`, `LR`, `RL`, anything else
/// top-down.
pub open spec fn spec_parse_direction(header: Seq<char>) -> FlowDirection {
    let parts = words(strip_semicolon(header));
    if parts.len() > 1 {
        let d = upper(strip_semicolon(parts[1]));
        if d == "TD"@ || d == "TB"@ {
            FlowDirection::TopDown
        } else if d == "BT"@ {
            FlowDirection::BottomUp
        } else if d == "LR"@ {
            FlowDirection::LeftRight
        } else if d == "RL"@ {
            FlowDirection::RightLeft
        } else {
            FlowDirection::TopDown
        }
    } else {
        FlowDirection::TopDown
    }
}

/// The direction tokens: `TB` and `TD` (in any case, a trailing `;` ignored)
/// both mean top-down, `BT` bottom-up, `LR` left-right and `RL` right-left;
/// any other token, or none, is top-down.
pub proof fn law_direction_tokens(header: Seq<char>)
    ensures
        words(strip_semicolon(header)).len() <= 1 ==> spec_parse_direction(header) == FlowDirection::TopDown,
        words(strip_semicolon(header)).len() > 1 ==> ({
            let d = upper(strip_semicolon(words(strip_semicolon(header))[1]));
            &&& (d == "TB"@ || d == "TD"@) ==> spec_parse_direction(header) == FlowDirection::TopDown
            &&& d == "BT"@ <==> spec_parse_direction(header) == FlowDirection::BottomUp
            &&& d == "LR"@ <==> spec_parse_direction(header) == FlowDirection::LeftRight
            &&& d == "RL"@ <==> spec_parse_direction(header) == FlowDirection::RightLeft
        }),
{
    reveal_strlit("TB");
    reveal_strlit("TD");
    reveal_strlit("BT");
    reveal_strlit("LR");
    reveal_strlit("RL");
    assert("TB"@[0] != "BT"@[0] && "TB"@[0] != "LR"@[0] && "TB"@[0] != "RL"@[0]);
    assert("TD"@[0] != "BT"@[0] && "TD"@[0] != "LR"@[0] && "TD"@[0] != "RL"@[0]);
    assert("BT"@[0] != "LR"@[0] && "BT"@[0] != "RL"@[0] && "LR"@[0] != "RL"@[0]);
}

fn parse_direction(header: &[char]) -> (r: FlowDirection)
    ensures
        r == spec_parse_direction(header@),
{
    let parts = split_ws(&strip_trailing_semicolon(header));
    if parts.len() > 1 {
        assert(parts.deep_view()[1] == parts@[1]@);
        let d = to_upper(&strip_trailing_semicolon(&parts[1]));
        if eq(&d, &chars_of("TD")) || eq(&d, &chars_of("TB")) {
            FlowDirection::TopDown
        } else if eq(&d, &chars_of("BT")) {
            FlowDirection::BottomUp
        } else if eq(&d, &chars_of("LR")) {
            FlowDirection::LeftRight
        } else if eq(&d, &chars_of("RL")) {
            FlowDirection::RightLeft
        } else {
            FlowDirection::TopDown
        }
    } else {
        FlowDirection::TopDown
    }
}

// ─────────────────────────────────────────────────────────────────────────────
// Colors and widths
// ─────────────────────────────────────────────────────────────────────────────

/// Bytes `c` takes in UTF-8.
pub open spec fn utf8_len(c: char) -> nat {
    let u = c as u32;
    if u < 0x80 {
        1
    } else if u < 0x800 {
        2
    } else if u < 0x10000 {
        3
    } else {
        4
    }
}

pub open spec fn utf8_len_seq(s: Seq<char>) -> nat
    decreases s.len(),
{
    if s.len() == 0 {
        0
    } else {
        utf8_len_seq(s.drop_last()) + utf8_len(s.last())
    }
}

pub open spec fn all_ascii(s: Seq<char>) -> bool {
    forall|i: int| 0 <= i < s.len() ==> ((#[trigger] s[i]) as u32) < 0x80
}

/// Byte offset `b` of the UTF-8 form of `s` falls between two characters.
pub open spec fn byte_boundary(s: Seq<char>, b: nat) -> bool {
    exists|k: int| 0 <= k <= s.len() && #[trigger] utf8_len_seq(s.take(k)) == b
}

/// The byte-indexed slicing of the digits of a `#RGB`, `#RRGGBB` or
/// `#RRGGBBAA` value (chosen by the digits' UTF-8 length) cuts no character.
pub open spec fn color_slicing_ok(value: Seq<char>) -> bool {
    let v = trim(value);
    v.len() > 0 && v[0] == '#' ==> {
        let hex = v.skip(1);
        let b = utf8_len_seq(hex);
        &&& b == 3 ==> byte_boundary(hex, 1) && byte_boundary(hex, 2)
        &&& b == 6 ==> byte_boundary(hex, 2) && byte_boundary(hex, 4)
        &&& b == 8 ==> byte_boundary(hex, 2) && byte_boundary(hex, 4) && byte_boundary(hex, 6)
    }
}

proof fn lemma_utf8_take_step(s: Seq<char>, k: int)
    requires
        0 <= k < s.len(),
    ensures
        utf8_len_seq(s.take(k + 1)) == utf8_len_seq(s.take(k)) + utf8_len(s[k]),
{
    assert(s.take(k + 1).drop_last() =~= s.take(k));
}

proof fn lemma_utf8_mono(s: Seq<char>, k1: int, k2: int)
    requires
        0 <= k1 <= k2 <= s.len(),
    ensures
        utf8_len_seq(s.take(k2)) >= utf8_len_seq(s.take(k1)) + (k2 - k1),
    decreases k2 - k1,
{
    if k1 < k2 {
        lemma_utf8_mono(s, k1, k2 - 1);
        lemma_utf8_take_step(s, k2 - 1);
    }
}

fn utf8_len_exec(c: char) -> (r: u64)
    ensures
        r == utf8_len(c),
{
    let u = c as u32;
    if u < 0x80 {
        1
    } else if u < 0x800 {
        2
    } else if u < 0x10000 {
        3
    } else {
        4
    }
}

fn byte_boundary_exec(s: &[char], b: u64) -> (r: bool)
    requires
        b <= 8,
    ensures
        r == byte_boundary(s@, b as nat),
{
    let mut k: usize = 0;
    let mut sum: u64 = 0;
    assert(s@.take(0) =~= Seq::<char>::empty());
    while k < s.len() && sum < b
        invariant
            k <= s@.len(),
            b <= 8,
            sum == utf8_len_seq(s@.take(k as int)),
            sum <= b + 4,
            forall|j: int| 0 <= j < k ==> #[trigger] utf8_len_seq(s@.take(j)) < b,
        decreases s@.len() - k,
    {
        proof {
            lemma_utf8_take_step(s@, k as int);
        }
        sum = sum + utf8_len_exec(s[k]);
        k = k + 1;
    }
    if sum == b {
        return true;
    }
    assert(!byte_boundary(s@, b as nat)) by {
        if byte_boundary(s@, b as nat) {
            let j = choose|j: int| 0 <= j <= s@.len() && #[trigger] utf8_len_seq(s@.take(j)) == b;
            if j >= k {
                lemma_utf8_mono(s@, k as int, j);
            }
        }
    }
    false
}

fn utf8_total_is(s: &[char], b: u64) -> (r: bool)
    requires
        b <= 8,
    ensures
        r == (utf8_len_seq(s@) == b),
{
    let mut k: usize = 0;
    let mut sum: u64 = 0;
    assert(s@.take(0) =~= Seq::<char>::empty());
    while k < s.len()
        invariant
            k <= s@.len(),
            b <= 8,
            sum == utf8_len_seq(s@.take(k as int)),
            sum <= b,
        decreases s@.len() - k,
    {
        proof {
            lemma_utf8_take_step(s@, k as int);
        }
        sum = sum + utf8_len_exec(s[k]);
        k = k + 1;
        if sum > b {
            proof {
                lemma_utf8_mono(s@, k as int, s@.len() as int);
                assert(s@.take(s@.len() as int) =~= s@);
            }
            return false;
        }
    }
    assert(s@.take(s@.len() as int) =~= s@);
    sum == b
}

fn color_slicing_ok_exec(value: &[char]) -> (r: bool)
    ensures
        r == color_slicing_ok(value@),
{
    let v = trim_of(value);
    if !(v.len() > 0 && v[0] == '#') {
        return true;
    }
    let hex = slice_of(&v, 1, v.len());
    assert(hex@ =~= v@.skip(1));
    if utf8_total_is(&hex, 3) {
        byte_boundary_exec(&hex, 1) && byte_boundary_exec(&hex, 2)
    } else if utf8_total_is(&hex, 6) {
        byte_boundary_exec(&hex, 2) && byte_boundary_exec(&hex, 4)
    } else if utf8_total_is(&hex, 8) {
        byte_boundary_exec(&hex, 2) && byte_boundary_exec(&hex, 4) && byte_boundary_exec(&hex, 6)
    } else {
        true
    }
}

/// A hex byte of one or two digits (`u8::from_str_radix(.., 16)`).
pub open spec fn hex_byte(s: Seq<char>) -> Option<u8> {
    match parse_unsigned(s, 16, 255) {
        Some(n) => Some(n as u8),
        None => None,
    }
}

/// A CSS hex color: `#RGB` (each digit doubled), `#RRGGBB`, `#RRGGBBAA`;
/// opaque unless an alpha byte is given.
pub open spec fn spec_css_color(value: Seq<char>) -> Option<Rgba> {
    let v = trim(value);
    if !(v.len() > 0 && v[0] == '#') {
        None
    } else {
        let hex = v.skip(1);
        if !all_ascii(hex) {
            None
        } else if hex.len() == 3 {
            match (hex_byte(hex.subrange(0, 1)), hex_byte(hex.subrange(1, 2)), hex_byte(hex.subrange(2, 3))) {
                (Some(r), Some(g), Some(b)) => Some(Rgba { r: (r * 17) as u8, g: (g * 17) as u8, b: (b * 17) as u8, a: 255 }),
                _ => None,
            }
        } else if hex.len() == 6 {
            match (hex_byte(hex.subrange(0, 2)), hex_byte(hex.subrange(2, 4)), hex_byte(hex.subrange(4, 6))) {
                (Some(r), Some(g), Some(b)) => Some(Rgba { r, g, b, a: 255 }),
                _ => None,
            }
        } else if hex.len() == 8 {
            match (hex_byte(hex.subrange(0, 2)), hex_byte(hex.subrange(2, 4)), hex_byte(hex.subrange(4, 6)), hex_byte(hex.subrange(6, 8))) {
                (Some(r), Some(g), Some(b), Some(a)) => Some(Rgba { r, g, b, a }),
                _ => None,
            }
        } else {
            None
        }
    }
}

fn all_ascii_exec(v: &[char]) -> (r: bool)
    ensures
        r == all_ascii(v@),
{
    let mut i: usize = 0;
    while i < v.len()
        invariant
            i <= v@.len(),
            forall|j: int| 0 <= j < i ==> ((#[trigger] v@[j]) as u32) < 0x80,
        decreases v@.len() - i,
    {
        if (v[i] as u32) >= 0x80 {
            return false;
        }
        i = i + 1;
    }
    true
}

fn hex_byte_exec(v: &[char], i: usize, j: usize) -> (r: Option<u8>)
    requires
        i <= j <= v@.len(),
    ensures
        r == hex_byte(v@.subrange(i as int, j as int)),
{
    let s = slice_of(v, i, j);
    match parse_unsigned_exec(&s, 16, 255) {
        Some(n) => Some(n as u8),
        None => None,
    }
}

fn parse_css_color(value: &[char]) -> (r: Option<Rgba>)
    ensures
        r == spec_css_color(value@),
{
    let v = trim_of(value);
    if !(v.len() > 0 && v[0] == '#') {
        return None;
    }
    let hex = slice_of(&v, 1, v.len());
    assert(hex@ =~= v@.skip(1));
    if !all_ascii_exec(&hex) {
        return None;
    }
    if hex.len() == 3 {
        match (hex_byte_exec(&hex, 0, 1), hex_byte_exec(&hex, 1, 2), hex_byte_exec(&hex, 2, 3)) {
            (Some(r), Some(g), Some(b)) => {
                assert(r <= 15 && g <= 15 && b <= 15) by {
                    lemma_one_hex_digit(hex@.subrange(0, 1));
                    lemma_one_hex_digit(hex@.subrange(1, 2));
                    lemma_one_hex_digit(hex@.subrange(2, 3));
                }
                Some(Rgba { r: r * 17, g: g * 17, b: b * 17, a: 255 })
            },
            _ => None,
        }
    } else if hex.len() == 6 {
        match (hex_byte_exec(&hex, 0, 2), hex_byte_exec(&hex, 2, 4), hex_byte_exec(&hex, 4, 6)) {
            (Some(r), Some(g), Some(b)) => Some(Rgba { r, g, b, a: 255 }),
            _ => None,
        }
    } else if hex.len() == 8 {
        match (hex_byte_exec(&hex, 0, 2), hex_byte_exec(&hex, 2, 4), hex_byte_exec(&hex, 4, 6), hex_byte_exec(&hex, 6, 8)) {
            (Some(r), Some(g), Some(b), Some(a)) => Some(Rgba { r, g, b, a }),
            _ => None,
        }
    } else {
        None
    }
}

proof fn lemma_one_hex_digit(s: Seq<char>)
    requires
        s.len() == 1,
    ensures
        hex_byte(s) matches Some(n) ==> n <= 15,
{
    let d = crate::text::unsigned_digits(s);
    if s[0] == '+' {
        assert(d.len() == 0);
    } else {
        assert(d == s);
        assert(d.drop_last().len() == 0);
        assert(crate::text::digits_value(d.drop_last(), 16) == 0);
    }
}

/// All characters are ASCII decimal digits.
pub open spec fn dec_digits(s: Seq<char>) -> bool {
    forall|i: int| 0 <= i < s.len() ==> crate::text::is_ascii_digit(#[trigger] s[i])
}

/// A decimal mantissa: digits around at most one `.`, at least one digit.
pub open spec fn float_mantissa(m: Seq<char>) -> bool {
    match find_char(m, '.') {
        Some(d) => dec_digits(m.take(d)) && dec_digits(m.skip(d + 1)) && m.len() >= 2,
        None => m.len() >= 1 && dec_digits(m),
    }
}

/// `s` without one leading `+` or `-`.
pub open spec fn drop_sign(s: Seq<char>) -> Seq<char> {
    if s.len() > 0 && (s[0] == '+' || s[0] == '-') {
        s.skip(1)
    } else {
        s
    }
}

/// A mantissa, then optionally `e`, an optional sign and at least one digit.
pub open spec fn float_number(s: Seq<char>) -> bool {
    match find_char(s, 'e') {
        Some(e) => float_mantissa(s.take(e)) && drop_sign(s.skip(e + 1)).len() >= 1 && dec_digits(drop_sign(s.skip(e + 1))),
        None => float_mantissa(s),
    }
}

/// The grammar of decimal float literals that std's float parsing accepts,
/// after ASCII lowercasing: `[+-]? (inf | infinity | nan | Number)`.
pub open spec fn float_literal(s: Seq<char>) -> bool {
    let b = drop_sign(lower(s));
    b == "inf"@ || b == "infinity"@ || b == "nan"@ || float_number(b)
}

fn dec_digits_exec(v: &[char]) -> (r: bool)
    ensures
        r == dec_digits(v@),
{
    let mut i: usize = 0;
    while i < v.len()
        invariant
            i <= v@.len(),
            forall|j: int| 0 <= j < i ==> crate::text::is_ascii_digit(#[trigger] v@[j]),
        decreases v@.len() - i,
    {
        if !crate::text::is_ascii_digit_char(v[i]) {
            return false;
        }
        i = i + 1;
    }
    true
}

fn float_mantissa_exec(m: &[char]) -> (r: bool)
    ensures
        r == float_mantissa(m@),
{
    proof {
        lemma_find_char_from_props(m@, '.', 0);
    }
    match find_char_exec(m, '.') {
        Some(d) => {
            assert(crate::text::find_char_from(m@, '.', 0) == Some(d as int));
            assert(d < m@.len());
            let n = m.len();
            let a = slice_of(m, 0, d);
            let b = slice_of(m, d + 1, n);
            assert(a@ =~= m@.take(d as int));
            assert(b@ =~= m@.skip(d + 1));
            dec_digits_exec(&a) && dec_digits_exec(&b) && m.len() >= 2
        },
        None => m.len() >= 1 && dec_digits_exec(m),
    }
}

fn drop_sign_exec(v: &[char]) -> (r: Vec<char>)
    ensures
        r@ == drop_sign(v@),
{
    if v.len() > 0 && (v[0] == '+' || v[0] == '-') {
        let r = slice_of(v, 1, v.len());
        assert(r@ =~= v@.skip(1));
        r
    } else {
        slice_of(v, 0, v.len())
    }
}

fn float_number_exec(s: &[char]) -> (r: bool)
    ensures
        r == float_number(s@),
{
    proof {
        lemma_find_char_from_props(s@, 'e', 0);
    }
    match find_char_exec(s, 'e') {
        Some(e) => {
            assert(crate::text::find_char_from(s@, 'e', 0) == Some(e as int));
            assert(e < s@.len());
            let n = s.len();
            let m = slice_of(s, 0, e);
            assert(m@ =~= s@.take(e as int));
            let x = slice_of(s, e + 1, n);
            assert(x@ =~= s@.skip(e + 1));
            let x = drop_sign_exec(&x);
            float_mantissa_exec(&m) && x.len() >= 1 && dec_digits_exec(&x)
        },
        None => {
            assert(s@.subrange(0, s@.len() as int) =~= s@);
            float_mantissa_exec(s)
        },
    }
}

fn float_literal_exec(v: &[char]) -> (r: bool)
    ensures
        r == float_literal(v@),
{
    let b = drop_sign_exec(&to_lower(v));
    eq(&b, &chars_of("inf")) || eq(&b, &chars_of("infinity")) || eq(&b, &chars_of("nan")) || float_number_exec(&b)
}

/// Stroke width: the trimmed value without a `px` suffix, when it parses as a float.
pub open spec fn spec_stroke_width(value: Seq<char>) -> Option<Seq<char>> {
    let v = trim(value);
    let n = if ends_with(v, "px"@) { v.take(v.len() - 2) } else { v };
    if float_literal(n) {
        Some(n)
    } else {
        None
    }
}

fn parse_stroke_width(value: &[char]) -> (r: Option<Vec<char>>)
    ensures
        match r {
            Some(n) => spec_stroke_width(value@) == Some(n@),
            None => spec_stroke_width(value@) is None,
        },
{
    let v = trim_of(value);
    proof {
        reveal_strlit("px");
    }
    let n = if ends_with_exec(&v, &chars_of("px")) {
        slice_of(&v, 0, v.len() - 2)
    } else {
        v
    };
    if float_literal_exec(&n) {
        Some(n)
    } else {
        None
    }
}

fn opt_chars_string(o: Option<Vec<char>>) -> (r: Option<String>)
    ensures
        ostr(r) == (match o {
            Some(v) => Some(v@),
            None => None::<Seq<char>>,
        }),
{
    match o {
        Some(v) => Some(string_of(&v)),
        None => None,
    }
}

// ─────────────────────────────────────────────────────────────────────────────
// Style properties and directives
// ─────────────────────────────────────────────────────────────────────────────

/// `prop` = `key:value` with key (trimmed, lowercased) and value (trimmed).
pub open spec fn prop_kv(prop: Seq<char>) -> Option<(Seq<char>, Seq<char>)> {
    let p = trim(prop);
    match find_char(p, ':') {
        Some(c) => Some((fold(trim(p.take(c))), trim(p.skip(c + 1)))),
        None => None,
    }
}

/// Style after the properties `props[i..]` (a later property wins).
pub open spec fn style_props_from(props: Seq<Seq<char>>, i: int, st: StyleView) -> StyleView
    decreases props.len() - i,
{
    if i < 0 || i >= props.len() {
        st
    } else {
        let st2 = match prop_kv(props[i]) {
            Some((k, v)) => if k == "fill"@ {
                StyleView { fill: spec_css_color(v), ..st }
            } else if k == "stroke"@ {
                StyleView { stroke: spec_css_color(v), ..st }
            } else if k == "stroke-width"@ {
                StyleView { stroke_width: spec_stroke_width(v), ..st }
            } else if k == "color"@ {
                StyleView { color: spec_css_color(v), ..st }
            } else {
                st
            },
            None => st,
        };
        style_props_from(props, i + 1, st2)
    }
}

/// Node style of comma-separated `key:value` properties (`fill`, `stroke`,
/// `stroke-width`, `color`; others ignored).
pub open spec fn spec_node_style(props: Seq<char>) -> StyleView {
    style_props_from(split(props, ','), 0, empty_style())
}

fn prop_kv_exec(prop: &[char]) -> (r: Option<(Vec<char>, Vec<char>)>)
    ensures
        match r {
            Some((k, v)) => prop_kv(prop@) == Some((k@, v@)),
            None => prop_kv(prop@) is None,
        },
{
    let p = trim_of(prop);
    proof {
        lemma_find_char_from_props(p@, ':', 0);
    }
    match find_char_exec(&p, ':') {
        Some(c) => {
            assert(crate::text::find_char_from(p@, ':', 0) == Some(c as int));
            let k = to_fold(&trim_of(&slice_of(&p, 0, c)));
            let v = trim_of(&slice_of(&p, c + 1, p.len()));
            Some((k, v))
        },
        None => None,
    }
}

fn parse_node_style_properties(props: &[char]) -> (r: NodeStyle)
    ensures
        style_view(r) == spec_node_style(props@),
{
    let parts = split_char(props, ',');
    let ghost pv = parts.deep_view();
    let mut st = NodeStyle { fill: None, stroke: None, stroke_width: None, color: None };
    let mut i: usize = 0;
    while i < parts.len()
        invariant
            i <= parts@.len(),
            pv == parts.deep_view(),
            pv == split(props@, ','),
            style_props_from(pv, i as int, style_view(st)) == spec_node_style(props@),
        decreases parts@.len() - i,
    {
        assert(pv[i as int] == parts@[i as int]@);
        match prop_kv_exec(&parts[i]) {
            Some((k, v)) => {
                if eq(&k, &chars_of("fill")) {
                    st.fill = parse_css_color(&v);
                } else if eq(&k, &chars_of("stroke")) {
                    st.stroke = parse_css_color(&v);
                } else if eq(&k, &chars_of("stroke-width")) {
                    st.stroke_width = opt_chars_string(parse_stroke_width(&v));
                } else if eq(&k, &chars_of("color")) {
                    st.color = parse_css_color(&v);
                }
            },
            None => {},
        }
        i = i + 1;
    }
    st
}

/// A `fill`, `stroke` or `color` property's value slices safely.
pub open spec fn prop_color_ok(prop: Seq<char>) -> bool {
    match prop_kv(prop) {
        Some((k, v)) => (k == "fill"@ || k == "stroke"@ || k == "color"@) ==> color_slicing_ok(v),
        None => true,
    }
}

/// Every color of a comma-separated property list slices safely.
pub open spec fn props_colors_ok(props: Seq<char>) -> bool {
    forall|i: int| 0 <= i < split(props, ',').len() ==> prop_color_ok(#[trigger] split(props, ',')[i])
}

fn props_colors_ok_exec(props: &[char]) -> (r: bool)
    ensures
        r == props_colors_ok(props@),
{
    let parts = split_char(props, ',');
    let ghost pv = parts.deep_view();
    let mut i: usize = 0;
    while i < parts.len()
        invariant
            i <= parts@.len(),
            pv == parts.deep_view(),
            pv == split(props@, ','),
            forall|j: int| 0 <= j < i ==> prop_color_ok(#[trigger] pv[j]),
        decreases parts@.len() - i,
    {
        assert(pv[i as int] == parts@[i as int]@);
        let ok = match prop_kv_exec(&parts[i]) {
            Some((k, v)) => {
                if eq(&k, &chars_of("fill")) || eq(&k, &chars_of("stroke")) || eq(&k, &chars_of("color")) {
                    color_slicing_ok_exec(&v)
                } else {
                    true
                }
            },
            None => true,
        };
        if !ok {
            return false;
        }
        i = i + 1;
    }
    true
}

/// `classDef <name> <props>`: the class name and its style.
pub open spec fn spec_class_def(line: Seq<char>) -> Option<(Seq<char>, StyleView)> {
    if !starts_with(lower(line), "classdef "@) {
        None
    } else {
        let rest = trim(line.skip(9));
        if rest.len() == 0 {
            None
        } else {
            let (name, props) = split_first_ws(rest);
            if trim(name).len() == 0 {
                None
            } else {
                Some((trim(name), spec_node_style(trim(opt_or_empty(props)))))
            }
        }
    }
}

/// The property list of a `classDef` line.
pub open spec fn class_def_props(line: Seq<char>) -> Seq<char> {
    trim(opt_or_empty(split_first_ws(trim(line.skip(9))).1))
}

fn opt_chars(o: Option<Vec<char>>) -> (r: Vec<char>)
    ensures
        r@ == opt_or_empty(match o {
            Some(v) => Some(v@),
            None => None::<Seq<char>>,
        }),
{
    match o {
        Some(v) => v,
        None => Vec::new(),
    }
}

fn parse_class_def(line: &[char]) -> (r: Option<(Vec<char>, NodeStyle)>)
    ensures
        match r {
            Some((n, s)) => spec_class_def(line@) == Some((n@, style_view(s))),
            None => spec_class_def(line@) is None,
        },
{
    proof {
        reveal_strlit("classdef ");
    }
    if !starts_with_exec(&to_lower(line), &chars_of("classdef ")) {
        return None;
    }
    let rest = trim_of(&slice_of(line, 9, line.len()));
    if rest.len() == 0 {
        return None;
    }
    let (name, props) = split_first_ws_exec(&rest);
    let name = trim_of(&name);
    if name.len() == 0 {
        return None;
    }
    let props = trim_of(&opt_chars(props));
    Some((name, parse_node_style_properties(&props)))
}

/// `class <ids> <className>`: the (node id, class) pairs, in order. Node ids
/// are comma-separated (spaces around commas allowed).
pub open spec fn spec_class_assignment(line: Seq<char>) -> Seq<(Seq<char>, Seq<char>)> {
    if !starts_with(lower(line), "class "@) {
        seq![]
    } else {
        let rest = trim(line.skip(6));
        let tokens = words(rest);
        if rest.len() == 0 || tokens.len() < 2 {
            seq![]
        } else {
            let class_name = trim(tokens.last());
            let ids = split(join(tokens.drop_last(), " "@), ',');
            class_pairs(ids, ids.len() as int, class_name)
        }
    }
}

/// Pairs for the first `k` id pieces (empty ones skipped).
pub open spec fn class_pairs(ids: Seq<Seq<char>>, k: int, class_name: Seq<char>) -> Seq<(Seq<char>, Seq<char>)>
    decreases k,
{
    if k <= 0 || k > ids.len() {
        seq![]
    } else {
        let p = class_pairs(ids, k - 1, class_name);
        let id = trim(ids[k - 1]);
        if id.len() > 0 {
            p.push((id, class_name))
        } else {
            p
        }
    }
}

fn class_assignment_pairs(line: &[char]) -> (r: Vec<(Vec<char>, Vec<char>)>)
    ensures
        r@.map_values(|p: (Vec<char>, Vec<char>)| (p.0@, p.1@)) == spec_class_assignment(line@),
{
    proof {
        reveal_strlit("class ");
    }
    let mut r: Vec<(Vec<char>, Vec<char>)> = Vec::new();
    if !starts_with_exec(&to_lower(line), &chars_of("class ")) {
        assert(r@.map_values(|p: (Vec<char>, Vec<char>)| (p.0@, p.1@)) =~= seq![]);
        return r;
    }
    let rest = trim_of(&slice_of(line, 6, line.len()));
    let tokens = split_ws(&rest);
    if rest.len() == 0 || tokens.len() < 2 {
        assert(r@.map_values(|p: (Vec<char>, Vec<char>)| (p.0@, p.1@)) =~= seq![]);
        return r;
    }
    let ghost tv = tokens.deep_view();
    assert(tv.last() == tokens@[tokens@.len() - 1]@);
    let class_name = trim_of(&tokens[tokens.len() - 1]);
    let mut firsts: Vec<Vec<char>> = Vec::new();
    let mut t: usize = 0;
    while t < tokens.len() - 1
        invariant
            t <= tokens@.len() - 1,
            tokens@.len() >= 2,
            tv == tokens.deep_view(),
            firsts.deep_view() == tv.take(t as int),
        decreases tokens@.len() - 1 - t,
    {
        let ghost before = firsts.deep_view();
        let w = slice_of(&tokens[t], 0, tokens[t].len());
        assert(w.deep_view() =~= w@);
        assert(w@ =~= tv[t as int]);
        firsts.push(w);
        assert(firsts.deep_view() =~= before.push(w@));
        assert(firsts.deep_view() =~= tv.take(t + 1));
        t = t + 1;
    }
    assert(tv.take(tv.len() - 1) =~= tv.drop_last());
    let ids = split_char(&join_exec(&firsts, &chars_of(" ")), ',');
    let ghost iv = ids.deep_view();
    let mut k: usize = 0;
    while k < ids.len()
        invariant
            k <= ids@.len(),
            iv == ids.deep_view(),
            r@.map_values(|p: (Vec<char>, Vec<char>)| (p.0@, p.1@)) == class_pairs(iv, k as int, class_name@),
        decreases ids@.len() - k,
    {
        assert(iv[k as int] == ids@[k as int]@);
        let id = trim_of(&ids[k]);
        if id.len() > 0 {
            let ghost before = r@.map_values(|p: (Vec<char>, Vec<char>)| (p.0@, p.1@));
            let ghost old_r = r@;
            let cn = slice_of(&class_name, 0, class_name.len());
            assert(cn@ =~= class_name@);
            r.push((id, cn));
            assert(r@ =~= old_r.push((id, cn)));
            assert(r@.map_values(|p: (Vec<char>, Vec<char>)| (p.0@, p.1@)) =~= before.push((id@, class_name@)));
        }
        k = k + 1;
    }
    r
}

/// `style <id> <props>`: the node id and its style patch.
pub open spec fn spec_style_directive(line: Seq<char>) -> Option<(Seq<char>, StyleView)> {
    if !starts_with(lower(line), "style "@) {
        None
    } else {
        let rest = trim(line.skip(6));
        if rest.len() == 0 {
            None
        } else {
            let (first, props) = split_first_ws(rest);
            let id = trim(first);
            if id.len() == 0 {
                None
            } else {
                Some((id, spec_node_style(trim(opt_or_empty(props)))))
            }
        }
    }
}

pub open spec fn style_directive_props(line: Seq<char>) -> Seq<char> {
    trim(opt_or_empty(split_first_ws(trim(line.skip(6))).1))
}

fn parse_style_directive(line: &[char]) -> (r: Option<(Vec<char>, NodeStyle)>)
    ensures
        match r {
            Some((n, s)) => spec_style_directive(line@) == Some((n@, style_view(s))),
            None => spec_style_directive(line@) is None,
        },
{
    proof {
        reveal_strlit("style ");
    }
    if !starts_with_exec(&to_lower(line), &chars_of("style ")) {
        return None;
    }
    let rest = trim_of(&slice_of(line, 6, line.len()));
    if rest.len() == 0 {
        return None;
    }
    let (first, props) = split_first_ws_exec(&rest);
    let id = trim_of(&first);
    if id.len() == 0 {
        return None;
    }
    let props = trim_of(&opt_chars(props));
    Some((id, parse_node_style_properties(&props)))
}

/// `base` with every property that `patch` sets replaced.
pub open spec fn overlay(base: StyleView, patch: StyleView) -> StyleView {
    StyleView {
        fill: if patch.fill is Some { patch.fill } else { base.fill },
        stroke: if patch.stroke is Some { patch.stroke } else { base.stroke },
        stroke_width: if patch.stroke_width is Some { patch.stroke_width } else { base.stroke_width },
        color: if patch.color is Some { patch.color } else { base.color },
    }
}

impl NodeStyle {
    /// Overlay every property `patch` sets onto `self`.
    pub fn apply_overlay(&mut self, patch: &NodeStyle)
        ensures
            style_view(*final(self)) == overlay(style_view(*old(self)), style_view(*patch)),
    {
        if patch.fill.is_some() {
            self.fill = patch.fill;
        }
        if patch.stroke.is_some() {
            self.stroke = patch.stroke;
        }
        match &patch.stroke_width {
            Some(w) => {
                self.stroke_width = Some(w.clone());
            },
            None => {},
        }
        if patch.color.is_some() {
            self.color = patch.color;
        }
    }
}

/// Tokens of a CSS list split at commas and whitespace, empty ones dropped.
pub open spec fn css_tokens(css: Seq<char>) -> Seq<Seq<char>> {
    words(css.map_values(|c: char| if c == ',' { ' ' } else { c }))
}

/// Some adjacent token pair reads `interpolate basis` (ASCII case ignored).
pub open spec fn has_interpolate_basis(ts: Seq<Seq<char>>) -> bool {
    exists|i: int| 0 <= i && i + 1 < ts.len() && lower(#[trigger] ts[i]) == "interpolate"@ && lower(ts[i + 1]) == "basis"@
}

/// Link style after the properties `props[i..]`.
pub open spec fn link_props_from(props: Seq<Seq<char>>, i: int, st: LinkView) -> LinkView
    decreases props.len() - i,
{
    if i < 0 || i >= props.len() {
        st
    } else {
        let st2 = match prop_kv(props[i]) {
            Some((k, v)) => if k == "stroke"@ {
                LinkView { stroke: spec_css_color(v), ..st }
            } else if k == "stroke-width"@ {
                LinkView { stroke_width: spec_stroke_width(v), ..st }
            } else {
                st
            },
            None => st,
        };
        link_props_from(props, i + 1, st2)
    }
}

/// Target and style of a `linkStyle <index|default> <css>` line: `None` for a
/// line with no CSS part.
pub open spec fn spec_link_style(line: Seq<char>) -> Option<(Seq<char>, LinkView)> {
    if line.len() <= 10 {
        None
    } else {
        let content = trim(line.skip(10));
        let e = crate::text::word_end(content, 0);
        if e >= content.len() {
            None
        } else {
            let index_part = trim(content.take(e));
            let css = trim(content.skip(e));
            let st = link_props_from(split(css, ','), 0, LinkView { stroke: None, stroke_width: None, interpolate_basis: false });
            Some((index_part, LinkView { interpolate_basis: has_interpolate_basis(css_tokens(css)), ..st }))
        }
    }
}

pub open spec fn link_style_css(line: Seq<char>) -> Seq<char> {
    let content = trim(line.skip(10));
    trim(content.skip(crate::text::word_end(content, 0)))
}

fn css_tokens_exec(css: &[char]) -> (r: Vec<Vec<char>>)
    ensures
        r.deep_view() == css_tokens(css@),
{
    let mut m: Vec<char> = Vec::new();
    let mut i: usize = 0;
    while i < css.len()
        invariant
            i <= css@.len(),
            m@ == css@.take(i as int).map_values(|c: char| if c == ',' { ' ' } else { c }),
        decreases css@.len() - i,
    {
        let c = css[i];
        m.push(if c == ',' { ' ' } else { c });
        assert(css@.take(i + 1).map_values(|c: char| if c == ',' { ' ' } else { c }) =~= css@.take(i as int).map_values(|c: char| if c == ',' { ' ' } else { c }).push(if c == ',' { ' ' } else { c }));
        i = i + 1;
    }
    assert(css@.take(css@.len() as int) =~= css@);
    split_ws(&m)
}

fn interpolate_basis_exec(ts: &Vec<Vec<char>>) -> (r: bool)
    ensures
        r == has_interpolate_basis(ts.deep_view()),
{
    let ghost tv = ts.deep_view();
    if ts.len() < 2 {
        return false;
    }
    let mut i: usize = 0;
    while i < ts.len() - 1
        invariant
            ts@.len() >= 2,
            i + 1 <= ts@.len(),
            tv == ts.deep_view(),
            forall|j: int| 0 <= j < i ==> !(lower(#[trigger] tv[j]) == "interpolate"@ && lower(tv[j + 1]) == "basis"@),
        decreases ts@.len() - i,
    {
        assert(tv[i as int] == ts@[i as int]@);
        assert(tv[i + 1] == ts@[i + 1]@);
        if eq(&to_lower(&ts[i]), &chars_of("interpolate")) && eq(&to_lower(&ts[i + 1]), &chars_of("basis")) {
            return true;
        }
        i = i + 1;
    }
    false
}

fn parse_link_style(line: &[char]) -> (r: Option<(Vec<char>, LinkStyle)>)
    ensures
        match r {
            Some((ix, st)) => spec_link_style(line@) == Some((ix@, link_view(st))),
            None => spec_link_style(line@) is None,
        },
{
    if line.len() <= 10 {
        return None;
    }
    let content = trim_of(&slice_of(line, 10, line.len()));
    let e = crate::text::word_end_exec(&content, 0);
    if e >= content.len() {
        return None;
    }
    let index_part = trim_of(&slice_of(&content, 0, e));
    let css = trim_of(&slice_of(&content, e, content.len()));
    let props = split_char(&css, ',');
    let ghost pv = props.deep_view();
    let mut st = LinkStyle { stroke: None, stroke_width: None, interpolate_basis: false };
    let mut i: usize = 0;
    while i < props.len()
        invariant
            i <= props@.len(),
            pv == props.deep_view(),
            pv == split(css@, ','),
            !st.interpolate_basis,
            link_props_from(pv, i as int, link_view(st)) == link_props_from(pv, 0, LinkView { stroke: None, stroke_width: None, interpolate_basis: false }),
        decreases props@.len() - i,
    {
        assert(pv[i as int] == props@[i as int]@);
        match prop_kv_exec(&props[i]) {
            Some((k, v)) => {
                if eq(&k, &chars_of("stroke")) {
                    st.stroke = parse_css_color(&v);
                } else if eq(&k, &chars_of("stroke-width")) {
                    st.stroke_width = opt_chars_string(parse_stroke_width(&v));
                }
            },
            None => {},
        }
        i = i + 1;
    }
    let toks = css_tokens_exec(&css);
    st.interpolate_basis = interpolate_basis_exec(&toks);
    Some((index_part, st))
}

// ─────────────────────────────────────────────────────────────────────────────
// Labels
// ─────────────────────────────────────────────────────────────────────────────

/// `s[i..]` with every non-overlapping occurrence of `p`, scanning left to
/// right, replaced by `r` (`str::replace`).
pub open spec fn replace_from(s: Seq<char>, p: Seq<char>, r: Seq<char>, i: int) -> Seq<char>
    decreases s.len() - i,
{
    if p.len() == 0 || i < 0 || i > s.len() {
        s.skip(i)
    } else {
        match find_from(s, p, i) {
            Some(k) => if i <= k && k + p.len() <= s.len() {
                s.subrange(i, k) + r + replace_from(s, p, r, k + p.len())
            } else {
                s.skip(i)
            },
            None => s.skip(i),
        }
    }
}

fn replace_exec(s: &[char], p: &[char], r: &[char]) -> (out: Vec<char>)
    requires
        p@.len() > 0,
    ensures
        out@ == replace_from(s@, p@, r@, 0),
{
    let n = s.len();
    let mut out: Vec<char> = Vec::new();
    let mut i: usize = 0;
    loop
        invariant
            n == s@.len(),
            p@.len() > 0,
            i <= n,
            out@ + replace_from(s@, p@, r@, i as int) == replace_from(s@, p@, r@, 0),
        decreases n - i,
    {
        proof {
            lemma_find_from_props(s@, p@, i as int);
        }
        match find_from_exec(s, p, i) {
            Some(k) => {
                let ghost before = out@;
                append(&mut out, &slice_of(s, i, k));
                append(&mut out, r);
                assert(out@ + replace_from(s@, p@, r@, k + p@.len()) =~= before + replace_from(s@, p@, r@, i as int));
                i = k + p.len();
            },
            None => {
                let ghost before = out@;
                append(&mut out, &slice_of(s, i, n));
                assert(out@ =~= before + replace_from(s@, p@, r@, i as int));
                return out;
            },
        }
    }
}

/// End of the run of icon-name characters (ASCII alphanumerics and `-`) at `i`.
pub open spec fn icon_end(s: Seq<char>, i: int) -> int
    decreases s.len() - i,
{
    if 0 <= i < s.len() && (is_ascii_alnum(s[i]) || s[i] == '-') {
        icon_end(s, i + 1)
    } else {
        i
    }
}

/// Length of a leading `fa:fa-<icon>` or `fab:fa-<icon>` token of `t`.
pub open spec fn fa_token_len(t: Seq<char>) -> Option<int> {
    if starts_with(t, "fa:fa-"@) && icon_end(t, "fa:fa-"@.len() as int) > "fa:fa-"@.len() {
        Some(icon_end(t, "fa:fa-"@.len() as int))
    } else if starts_with(t, "fab:fa-"@) && icon_end(t, "fab:fa-"@.len() as int) > "fab:fa-"@.len() {
        Some(icon_end(t, "fab:fa-"@.len() as int))
    } else {
        None
    }
}

/// `text` without its leading Font Awesome icon tokens (each one and the
/// whitespace before and after it); mid-label tokens stay.
pub open spec fn strip_fa(text: Seq<char>) -> Seq<char>
    decreases text.len(),
{
    let t = trim_start(text);
    match fa_token_len(t) {
        Some(k) => if trim_start(t.skip(k)).len() < text.len() {
            strip_fa(trim_start(t.skip(k)))
        } else {
            text
        },
        None => text,
    }
}

/// A label with `<br/>`, `<br>` and `<br />` turned into line breaks and
/// leading icon tokens dropped.
pub open spec fn spec_clean_label(label: Seq<char>) -> Seq<char> {
    let a = replace_from(label, "<br/>"@, "\n"@, 0);
    let b = replace_from(a, "<br>"@, "\n"@, 0);
    let c = replace_from(b, "<br />"@, "\n"@, 0);
    strip_fa(c)
}

fn icon_end_exec(s: &[char], i: usize) -> (r: usize)
    requires
        i <= s@.len(),
    ensures
        r == icon_end(s@, i as int),
        i <= r <= s@.len(),
{
    let mut k = i;
    while k < s.len() && (is_ascii_alnum_char(s[k]) || s[k] == '-')
        invariant
            i <= k <= s@.len(),
            icon_end(s@, k as int) == icon_end(s@, i as int),
        decreases s@.len() - k,
    {
        k = k + 1;
    }
    k
}

fn fa_token_len_exec(t: &[char]) -> (r: Option<usize>)
    ensures
        match r {
            Some(k) => fa_token_len(t@) == Some(k as int) && 0 < k <= t@.len(),
            None => fa_token_len(t@) is None,
        },
{
    let fa = chars_of("fa:fa-");
    if starts_with_exec(t, &fa) {
        let e = icon_end_exec(t, fa.len());
        if e > fa.len() {
            return Some(e);
        }
    }
    let fab = chars_of("fab:fa-");
    if starts_with_exec(t, &fab) {
        let e = icon_end_exec(t, fab.len());
        if e > fab.len() {
            return Some(e);
        }
    }
    None
}

fn strip_fa_exec(text: &[char]) -> (r: Vec<char>)
    ensures
        r@ == strip_fa(text@),
{
    let mut cur = slice_of(text, 0, text.len());
    assert(cur@ =~= text@);
    loop
        invariant
            strip_fa(cur@) == strip_fa(text@),
        decreases cur@.len(),
    {
        let t = trim_start_of(&cur);
        proof {
            lemma_skip_ws_bounds(cur@, 0);
        }
        match fa_token_len_exec(&t) {
            Some(k) => {
                let rest = slice_of(&t, k, t.len());
                assert(rest@ =~= t@.skip(k as int));
                let next = trim_start_of(&rest);
                proof {
                    lemma_skip_ws_bounds(rest@, 0);
                }
                cur = next;
            },
            None => {
                return cur;
            },
        }
    }
}

fn clean_label_chars(label: &[char]) -> (r: Vec<char>)
    ensures
        r@ == spec_clean_label(label@),
{
    proof {
        reveal_strlit("<br/>");
        reveal_strlit("<br>");
        reveal_strlit("<br />");
    }
    let nl = chars_of("\n");
    let a = replace_exec(label, &chars_of("<br/>"), &nl);
    let b = replace_exec(&a, &chars_of("<br>"), &nl);
    let c = replace_exec(&b, &chars_of("<br />"), &nl);
    strip_fa_exec(&c)
}

/// Label clean-up: HTML line breaks become newlines and leading Font Awesome
/// icon tokens (`fa:fa-*`, `fab:fa-*`) are stripped.
pub fn clean_label(label: &str) -> (r: String)
    ensures
        r@ == spec_clean_label(label@),
{
    string_of(&clean_label_chars(&chars_of(label)))
}

// ─────────────────────────────────────────────────────────────────────────────
// Arrows and edge labels
// ─────────────────────────────────────────────────────────────────────────────

/// The arrow patterns, longest first: the text, the edge style and the heads
/// at the start and at the end.
pub open spec fn arrow_pattern(i: int) -> (Seq<char>, EdgeStyle, ArrowHead, ArrowHead) {
    if i == 0 {
        ("<-->"@, EdgeStyle::Solid, ArrowHead::Arrow, ArrowHead::Arrow)
    } else if i == 1 {
        ("o--o"@, EdgeStyle::Solid, ArrowHead::Circle, ArrowHead::Circle)
    } else if i == 2 {
        ("x--x"@, EdgeStyle::Solid, ArrowHead::Cross, ArrowHead::Cross)
    } else if i == 3 {
        ("--->"@, EdgeStyle::Solid, ArrowHead::NoArrow, ArrowHead::Arrow)
    } else if i == 4 {
        ("-.->"@, EdgeStyle::Dotted, ArrowHead::NoArrow, ArrowHead::Arrow)
    } else if i == 5 {
        ("-->"@, EdgeStyle::Solid, ArrowHead::NoArrow, ArrowHead::Arrow)
    } else if i == 6 {
        ("---"@, EdgeStyle::Solid, ArrowHead::NoArrow, ArrowHead::NoArrow)
    } else if i == 7 {
        ("-.-"@, EdgeStyle::Dotted, ArrowHead::NoArrow, ArrowHead::NoArrow)
    } else if i == 8 {
        ("==>"@, EdgeStyle::Thick, ArrowHead::NoArrow, ArrowHead::Arrow)
    } else if i == 9 {
        ("==="@, EdgeStyle::Thick, ArrowHead::NoArrow, ArrowHead::NoArrow)
    } else if i == 10 {
        ("--o"@, EdgeStyle::Solid, ArrowHead::NoArrow, ArrowHead::Circle)
    } else {
        ("--x"@, EdgeStyle::Solid, ArrowHead::NoArrow, ArrowHead::Cross)
    }
}

/// How many arrow patterns there are.
pub const ARROW_PATTERN_COUNT: usize = 12;

/// An arrow found in a text: its position, the pattern, style and heads.
pub type ArrowMatch = (int, Seq<char>, EdgeStyle, ArrowHead, ArrowHead);

/// The best match after patterns `i..`: the earliest position wins, at equal
/// positions the longer pattern, at equal lengths the one listed first.
pub open spec fn arrow_scan(t: Seq<char>, i: int, best: Option<ArrowMatch>) -> Option<ArrowMatch>
    decreases ARROW_PATTERN_COUNT - i,
{
    if i < 0 || i >= ARROW_PATTERN_COUNT {
        best
    } else {
        let pat = arrow_pattern(i);
        let next = match find(t, pat.0) {
            Some(pos) => {
                let dominated = match best {
                    Some(b) => pos > b.0 || (pos == b.0 && pat.0.len() <= b.1.len()),
                    None => false,
                };
                if dominated {
                    best
                } else {
                    Some((pos, pat.0, pat.1, pat.2, pat.3))
                }
            },
            None => best,
        };
        arrow_scan(t, i + 1, next)
    }
}

/// The arrow an edge segment is split at.
pub open spec fn find_arrow(t: Seq<char>) -> Option<ArrowMatch> {
    arrow_scan(t, 0, None)
}

proof fn lemma_arrow_pattern_len(i: int)
    ensures
        arrow_pattern(i).0.len() >= 3,
{
    reveal_strlit("<-->");
    reveal_strlit("o--o");
    reveal_strlit("x--x");
    reveal_strlit("--->");
    reveal_strlit("-.->");
    reveal_strlit("-->");
    reveal_strlit("---");
    reveal_strlit("-.-");
    reveal_strlit("==>");
    reveal_strlit("===");
    reveal_strlit("--o");
    reveal_strlit("--x");
}

fn arrow_pattern_exec(i: usize) -> (r: (Vec<char>, EdgeStyle, ArrowHead, ArrowHead))
    requires
        i < ARROW_PATTERN_COUNT,
    ensures
        r.0@ == arrow_pattern(i as int).0,
        r.1 == arrow_pattern(i as int).1,
        r.2 == arrow_pattern(i as int).2,
        r.3 == arrow_pattern(i as int).3,
{
    if i == 0 {
        (chars_of("<-->"), EdgeStyle::Solid, ArrowHead::Arrow, ArrowHead::Arrow)
    } else if i == 1 {
        (chars_of("o--o"), EdgeStyle::Solid, ArrowHead::Circle, ArrowHead::Circle)
    } else if i == 2 {
        (chars_of("x--x"), EdgeStyle::Solid, ArrowHead::Cross, ArrowHead::Cross)
    } else if i == 3 {
        (chars_of("--->"), EdgeStyle::Solid, ArrowHead::NoArrow, ArrowHead::Arrow)
    } else if i == 4 {
        (chars_of("-.->"), EdgeStyle::Dotted, ArrowHead::NoArrow, ArrowHead::Arrow)
    } else if i == 5 {
        (chars_of("-->"), EdgeStyle::Solid, ArrowHead::NoArrow, ArrowHead::Arrow)
    } else if i == 6 {
        (chars_of("---"), EdgeStyle::Solid, ArrowHead::NoArrow, ArrowHead::NoArrow)
    } else if i == 7 {
        (chars_of("-.-"), EdgeStyle::Dotted, ArrowHead::NoArrow, ArrowHead::NoArrow)
    } else if i == 8 {
        (chars_of("==>"), EdgeStyle::Thick, ArrowHead::NoArrow, ArrowHead::Arrow)
    } else if i == 9 {
        (chars_of("==="), EdgeStyle::Thick, ArrowHead::NoArrow, ArrowHead::NoArrow)
    } else if i == 10 {
        (chars_of("--o"), EdgeStyle::Solid, ArrowHead::NoArrow, ArrowHead::Circle)
    } else {
        (chars_of("--x"), EdgeStyle::Solid, ArrowHead::NoArrow, ArrowHead::Cross)
    }
}

/// A found arrow as plain values: the position and the pattern's length.
pub type ArrowFound = (usize, usize, EdgeStyle, ArrowHead, ArrowHead);

pub open spec fn arrow_found_view(t: Seq<char>, f: ArrowFound) -> ArrowMatch {
    (f.0 as int, t.subrange(f.0 as int, f.0 + f.1), f.2, f.3, f.4)
}

fn find_arrow_exec(t: &[char]) -> (r: Option<ArrowFound>)
    ensures
        match r {
            Some(f) => find_arrow(t@) == Some(arrow_found_view(t@, f)) && f.1 >= 3 && f.0 + f.1 <= t@.len(),
            None => find_arrow(t@) is None,
        },
{
    let mut best: Option<ArrowFound> = None;
    let mut i: usize = 0;
    while i < ARROW_PATTERN_COUNT
        invariant
            i <= ARROW_PATTERN_COUNT,
            arrow_scan(t@, i as int, match best {
                Some(f) => Some(arrow_found_view(t@, f)),
                None => None,
            }) == find_arrow(t@),
            best matches Some(f) ==> f.1 >= 3 && f.0 + f.1 <= t@.len(),
        decreases ARROW_PATTERN_COUNT - i,
    {
        let (pat, st, a, b) = arrow_pattern_exec(i);
        proof {
            lemma_arrow_pattern_len(i as int);
            lemma_find_from_props(t@, pat@, 0);
        }
        match find_exec(t, &pat) {
            Some(pos) => {
                let dominated = match best {
                    Some(f) => pos > f.0 || (pos == f.0 && pat.len() <= f.1),
                    None => false,
                };
                if !dominated {
                    assert(t@.subrange(pos as int, pos + pat@.len()) =~= pat@);
                    best = Some((pos, pat.len(), st, a, b));
                }
            },
            None => {},
        }
        i = i + 1;
    }
    best
}

pub open spec fn ov(o: Option<Vec<char>>) -> Option<Seq<char>> {
    match o {
        Some(v) => Some(v@),
        None => None,
    }
}

/// A `|label|` right after an arrow: the cleaned label and the text after it
/// (trimmed); otherwise no label and the trimmed text.
pub open spec fn spec_edge_label(text: Seq<char>) -> (Option<Seq<char>>, Seq<char>) {
    let t = trim(text);
    if t.len() > 0 && t[0] == '|' {
        match find_char(t.skip(1), '|') {
            Some(e) => (Some(spec_clean_label(trim(t.subrange(1, e + 1)))), trim(t.skip(e + 2))),
            None => (None, t),
        }
    } else {
        (None, t)
    }
}

fn parse_edge_label(text: &[char]) -> (r: (Option<Vec<char>>, Vec<char>))
    ensures
        ov(r.0) == spec_edge_label(text@).0,
        r.1@ == spec_edge_label(text@).1,
{
    let t = trim_of(text);
    if t.len() > 0 && t[0] == '|' {
        let n = t.len();
        let after = slice_of(&t, 1, n);
        assert(after@ =~= t@.skip(1));
        proof {
            lemma_find_char_from_props(after@, '|', 0);
        }
        match find_char_exec(&after, '|') {
            Some(e) => {
                assert(crate::text::find_char_from(after@, '|', 0) == Some(e as int));
                let label = clean_label_chars(&trim_of(&slice_of(&t, 1, e + 1)));
                let rest = slice_of(&t, e + 2, n);
                assert(rest@ =~= t@.skip(e + 2));
                (Some(label), trim_of(&rest))
            },
            None => (None, t),
        }
    } else {
        (None, t)
    }
}

pub open spec fn opt_max(a: Option<int>, b: Option<int>) -> Option<int> {
    match (a, b) {
        (Some(x), Some(y)) => Some(if x >= y { x } else { y }),
        (Some(x), None) => Some(x),
        (None, y) => y,
    }
}

pub open spec fn opt_min(a: Option<int>, b: Option<int>) -> Option<int> {
    match (a, b) {
        (Some(x), Some(y)) => Some(if x <= y { x } else { y }),
        (Some(x), None) => Some(x),
        (None, y) => y,
    }
}

/// Last position of a shape closer `]`, `)`, `}` or `|`.
pub open spec fn last_closer(t: Seq<char>) -> Option<int> {
    opt_max(opt_max(rfind_char(t, ']'), rfind_char(t, ')')), opt_max(rfind_char(t, '}'), rfind_char(t, '|')))
}

/// A dash-style label (`A[x]-- text -->`): right after the last shape closer
/// comes `--`, `-.` or `==`, then the end or whitespace; the label is the rest.
/// Gives the node part and the cleaned label, or the trimmed text alone.
pub open spec fn spec_dash_label(node_text: Seq<char>) -> (Seq<char>, Option<Seq<char>>) {
    let t = trim(node_text);
    match last_closer(t) {
        Some(cp) => {
            let after = t.skip(cp + 1);
            if (starts_with(after, "--"@) || starts_with(after, "-."@) || starts_with(after, "=="@))
                && (after.len() == 2 || is_ws(after[2])) {
                (t.take(cp + 1), Some(spec_clean_label(trim(after.skip(2)))))
            } else {
                (t, None)
            }
        },
        None => (t, None),
    }
}

fn opt_max_exec(a: Option<usize>, b: Option<usize>) -> (r: Option<usize>)
    ensures
        match r {
            Some(x) => opt_max(match a { Some(y) => Some(y as int), None => None }, match b { Some(y) => Some(y as int), None => None }) == Some(x as int),
            None => opt_max(match a { Some(y) => Some(y as int), None => None }, match b { Some(y) => Some(y as int), None => None }) is None,
        },
        match r {
            Some(x) => (a matches Some(y) && x == y) || (b matches Some(y) && x == y),
            None => true,
        },
{
    match (a, b) {
        (Some(x), Some(y)) => Some(if x >= y { x } else { y }),
        (Some(x), None) => Some(x),
        (None, y) => y,
    }
}

fn opt_min_exec(a: Option<usize>, b: Option<usize>) -> (r: Option<usize>)
    ensures
        match r {
            Some(x) => opt_min(match a { Some(y) => Some(y as int), None => None }, match b { Some(y) => Some(y as int), None => None }) == Some(x as int),
            None => opt_min(match a { Some(y) => Some(y as int), None => None }, match b { Some(y) => Some(y as int), None => None }) is None,
        },
        match r {
            Some(x) => (a matches Some(y) && x == y) || (b matches Some(y) && x == y),
            None => true,
        },
{
    match (a, b) {
        (Some(x), Some(y)) => Some(if x <= y { x } else { y }),
        (Some(x), None) => Some(x),
        (None, y) => y,
    }
}

fn rfind_char_checked(t: &[char], c: char) -> (r: Option<usize>)
    ensures
        match r {
            Some(k) => rfind_char(t@, c) == Some(k as int) && k < t@.len() && t@[k as int] == c,
            None => rfind_char(t@, c) is None,
        },
        find_char(t@, c) is Some <==> r is Some,
{
    proof {
        lemma_rfind_char_props(t@, c, t@.len() as int);
        lemma_find_char_from_props(t@, c, 0);
    }
    rfind_char_exec(t, c)
}

fn find_char_checked(t: &[char], c: char) -> (r: Option<usize>)
    ensures
        match r {
            Some(k) => find_char(t@, c) == Some(k as int) && k < t@.len() && t@[k as int] == c,
            None => find_char(t@, c) is None,
        },
{
    proof {
        lemma_find_char_from_props(t@, c, 0);
    }
    let r = find_char_exec(t, c);
    proof {
        if r is Some {
            assert(crate::text::find_char_from(t@, c, 0) == Some(r->0 as int));
        }
    }
    r
}

fn extract_dash_label(node_text: &[char]) -> (r: (Vec<char>, Option<Vec<char>>))
    ensures
        r.0@ == spec_dash_label(node_text@).0,
        ov(r.1) == spec_dash_label(node_text@).1,
{
    let t = trim_of(node_text);
    let n = t.len();
    let cp = opt_max_exec(
        opt_max_exec(rfind_char_checked(&t, ']'), rfind_char_checked(&t, ')')),
        opt_max_exec(rfind_char_checked(&t, '}'), rfind_char_checked(&t, '|')),
    );
    match cp {
        Some(cp) => {
            let after = slice_of(&t, cp + 1, n);
            assert(after@ =~= t@.skip(cp + 1));
            proof {
                reveal_strlit("--");
                reveal_strlit("-.");
                reveal_strlit("==");
            }
            if (starts_with_exec(&after, &chars_of("--")) || starts_with_exec(&after, &chars_of("-."))
                || starts_with_exec(&after, &chars_of("=="))) && (after.len() == 2 || is_ws_char(after[2])) {
                proof {
                    reveal_strlit("--");
                    reveal_strlit("-.");
                    reveal_strlit("==");
                }
                let rest = slice_of(&after, 2, after.len());
                assert(rest@ =~= after@.skip(2));
                let node = slice_of(&t, 0, cp + 1);
                assert(node@ =~= t@.take(cp + 1));
                (node, Some(clean_label_chars(&trim_of(&rest))))
            } else {
                (t, None)
            }
        },
        None => (t, None),
    }
}

/// First position of a shape opener `[`, `(`, `{` or `>`.
pub open spec fn first_marker(t: Seq<char>) -> Option<int> {
    opt_min(opt_min(find_char(t, '['), find_char(t, '(')), opt_min(find_char(t, '{'), find_char(t, '>')))
}

/// The first `k` pieces, trimmed, empty ones dropped.
pub open spec fn trimmed_nonempty(pieces: Seq<Seq<char>>, k: int) -> Seq<Seq<char>>
    decreases k,
{
    if k <= 0 || k > pieces.len() {
        seq![]
    } else {
        let p = trimmed_nonempty(pieces, k - 1);
        if trim(pieces[k - 1]).len() > 0 {
            p.push(trim(pieces[k - 1]))
        } else {
            p
        }
    }
}

pub open spec fn all_trimmed(pieces: Seq<Seq<char>>) -> Seq<Seq<char>> {
    pieces.map_values(|p: Seq<char>| trim(p))
}

/// `A & B` node lists. With a shape opener after the first `&`, the ids
/// before the opener (trimmed, the shape dropped); with a shape opener before
/// it, the whole text; without openers, the non-empty trimmed pieces.
pub open spec fn spec_split_amp(t: Seq<char>) -> Seq<Seq<char>> {
    match first_marker(t) {
        Some(m) => match find_char(t, '&') {
            Some(a) => if a < m && all_trimmed(split(t.take(m), '&')).len() > 1 {
                all_trimmed(split(t.take(m), '&'))
            } else {
                seq![t]
            },
            None => seq![t],
        },
        None => if find_char(t, '&') is Some {
            trimmed_nonempty(split(t, '&'), split(t, '&').len() as int)
        } else {
            seq![t]
        },
    }
}

fn one_piece(t: &[char]) -> (r: Vec<Vec<char>>)
    ensures
        r.deep_view() == seq![t@],
{
    let mut r: Vec<Vec<char>> = Vec::new();
    let c = slice_of(t, 0, t.len());
    assert(c@ =~= t@);
    assert(c.deep_view() =~= c@);
    r.push(c);
    assert(r.deep_view() =~= seq![t@]);
    r
}

fn split_by_ampersand(t: &[char]) -> (r: Vec<Vec<char>>)
    ensures
        r.deep_view() == spec_split_amp(t@),
{
    let marker = opt_min_exec(
        opt_min_exec(find_char_checked(t, '['), find_char_checked(t, '(')),
        opt_min_exec(find_char_checked(t, '{'), find_char_checked(t, '>')),
    );
    let amp = find_char_checked(t, '&');
    match marker {
        Some(m) => {
            match amp {
                Some(a) => {
                    if a < m {
                        let head = slice_of(t, 0, m);
                        assert(head@ =~= t@.take(m as int));
                        let pieces = split_char(&head, '&');
                        let ghost pv = pieces.deep_view();
                        let mut ids: Vec<Vec<char>> = Vec::new();
                        let mut k: usize = 0;
                        while k < pieces.len()
                            invariant
                                k <= pieces@.len(),
                                pv == pieces.deep_view(),
                                ids.deep_view() == all_trimmed(pv).take(k as int),
                            decreases pieces@.len() - k,
                        {
                            assert(pv[k as int] == pieces@[k as int]@);
                            let ghost before = ids.deep_view();
                            let w = trim_of(&pieces[k]);
                            assert(w.deep_view() =~= w@);
                            ids.push(w);
                            assert(ids.deep_view() =~= before.push(w@));
                            assert(ids.deep_view() =~= all_trimmed(pv).take(k + 1));
                            k = k + 1;
                        }
                        assert(all_trimmed(pv).take(pv.len() as int) =~= all_trimmed(pv));
                        if ids.len() > 1 {
                            return ids;
                        }
                    }
                    one_piece(t)
                },
                None => one_piece(t),
            }
        },
        None => {
            match amp {
                Some(_) => {
                    let pieces = split_char(t, '&');
                    let ghost pv = pieces.deep_view();
                    let mut ids: Vec<Vec<char>> = Vec::new();
                    let mut k: usize = 0;
                    while k < pieces.len()
                        invariant
                            k <= pieces@.len(),
                            pv == pieces.deep_view(),
                            ids.deep_view() == trimmed_nonempty(pv, k as int),
                        decreases pieces@.len() - k,
                    {
                        assert(pv[k as int] == pieces@[k as int]@);
                        let w = trim_of(&pieces[k]);
                        if w.len() > 0 {
                            let ghost before = ids.deep_view();
                            assert(w.deep_view() =~= w@);
                            ids.push(w);
                            assert(ids.deep_view() =~= before.push(w@));
                        }
                        k = k + 1;
                    }
                    ids
                },
                None => one_piece(t),
            }
        },
    }
}

// ─────────────────────────────────────────────────────────────────────────────
// Node texts
// ─────────────────────────────────────────────────────────────────────────────

/// Last index at which `p` occurs in `s`, starting before `j`.
pub open spec fn rfind_str_before(s: Seq<char>, p: Seq<char>, j: int) -> Option<int>
    decreases j,
{
    if j <= 0 {
        None
    } else if occurs_at(s, p, j - 1) {
        Some(j - 1)
    } else {
        rfind_str_before(s, p, j - 1)
    }
}

/// `str::rfind` with a string pattern.
pub open spec fn rfind_str(s: Seq<char>, p: Seq<char>) -> Option<int> {
    rfind_str_before(s, p, s.len() as int + 1)
}

/// What the shape rules make of a (trimmed, non-empty) node text.
pub enum ShapeParse {
    /// The text has a shape's closer before its opener: slicing between
    /// them would panic.
    Panics,
    /// A shaped node: the id as written (maybe empty), the label (trimmed,
    /// not yet cleaned) and the shape.
    Shaped(Seq<char>, Seq<char>, NodeShape),
    /// No shape: the first whitespace-separated token, `;` dropped.
    Plain(Seq<char>),
}

pub open spec fn opener_closer(t: Seq<char>, open: Seq<char>, close: Seq<char>, k: int, shape: NodeShape) -> ShapeParse {
    let start = find(t, open)->0;
    let end = find(t, close)->0;
    if end < start + k {
        ShapeParse::Panics
    } else {
        ShapeParse::Shaped(trim(t.take(start)), trim(t.subrange(start + k, end)), shape)
    }
}

pub open spec fn char_span(t: Seq<char>, open: char, close: char, shape: NodeShape) -> ShapeParse {
    let start = find_char(t, open)->0;
    let end = rfind_char(t, close)->0;
    if end < start + 1 {
        ShapeParse::Panics
    } else {
        ShapeParse::Shaped(trim(t.take(start)), trim(t.subrange(start + 1, end)), shape)
    }
}

pub open spec fn has(t: Seq<char>, c: char) -> bool {
    find_char(t, c) is Some
}

/// The node shape rules, tried in order: stadium `([..])`, double circle
/// `(((..)))`, circle `((..))`, cylinder `[(..)]`, subroutine `[[..]]`, hexagon
/// `{{..}}`, diamond `{..}`, inverted trapezoid `[\..\/]`, trapezoid `[/..\]`,
/// parallelogram `[/../]`, round rectangle `(..)`, rectangle `[..]`,
/// asymmetric `>..]`; otherwise a plain id.
pub open spec fn shape_parse(t: Seq<char>) -> ShapeParse {
    if contains(t, "(["@) && contains(t, "])"@) {
        let start = find(t, "(["@)->0;
        let end = find(t, "])"@)->0;
        if end < start + 2 {
            ShapeParse::Panics
        } else {
            let id = if trim(t.take(start)).len() == 0 {
                t.take(if start >= 1 { start } else { 1 })
            } else {
                trim(t.take(start))
            };
            ShapeParse::Shaped(id, trim(t.subrange(start + 2, end)), NodeShape::Stadium)
        }
    } else if contains(t, "((("@) && find(t.skip(find(t, "((("@)->0), ")))"@) is Some {
        let start = find(t, "((("@)->0;
        let rel = find(t.skip(start), ")))"@)->0;
        ShapeParse::Shaped(trim(t.take(start)), trim(t.subrange(start + 3, start + rel)), NodeShape::DoubleCircle)
    } else if contains(t, "(("@) && contains(t, "))"@) {
        opener_closer(t, "(("@, "))"@, 2, NodeShape::Circle)
    } else if contains(t, "[("@) && contains(t, ")]"@) {
        opener_closer(t, "[("@, ")]"@, 2, NodeShape::Cylinder)
    } else if contains(t, "[["@) && contains(t, "]]"@) {
        opener_closer(t, "[["@, "]]"@, 2, NodeShape::Subroutine)
    } else if contains(t, "{{"@) && contains(t, "}}"@) {
        opener_closer(t, "{{"@, "}}"@, 2, NodeShape::Hexagon)
    } else if has(t, '{') && has(t, '}') && !contains(t, "{{"@) {
        char_span(t, '{', '}', NodeShape::Diamond)
    } else if contains(t, "[\\"@) && find(t.skip(find(t, "[\\"@)->0 + 2), "/]"@) is Some {
        let start = find(t, "[\\"@)->0;
        let after = t.skip(start + 2);
        ShapeParse::Shaped(trim(t.take(start)), trim(after.take(find(after, "/]"@)->0)), NodeShape::TrapezoidInv)
    } else if contains(t, "[/"@) && (find(t.skip(find(t, "[/"@)->0 + 2), "\\]"@) is Some
        || rfind_str(t.skip(find(t, "[/"@)->0 + 2), "/]"@) is Some) {
        let start = find(t, "[/"@)->0;
        let after = t.skip(start + 2);
        match find(after, "\\]"@) {
            Some(rel) => ShapeParse::Shaped(trim(t.take(start)), trim(after.take(rel)), NodeShape::Trapezoid),
            None => ShapeParse::Shaped(trim(t.take(start)), trim(after.take(rfind_str(after, "/]"@)->0)), NodeShape::Parallelogram),
        }
    } else if has(t, '(') && has(t, ')') && !contains(t, "(("@) && !contains(t, "(["@) && !contains(t, "[("@) {
        char_span(t, '(', ')', NodeShape::RoundRect)
    } else if has(t, '[') && has(t, ']') && !contains(t, "[["@) && !contains(t, "[("@) && !contains(t, "(["@)
        && !contains(t, "[/"@) && !contains(t, "[\\"@) {
        char_span(t, '[', ']', NodeShape::Rectangle)
    } else if has(t, '>') && has(t, ']') && find_char(t, '>')->0 < rfind_char(t, ']')->0 {
        let start = find_char(t, '>')->0;
        let end = rfind_char(t, ']')->0;
        ShapeParse::Shaped(trim(t.take(start)), trim(t.subrange(start + 1, end)), NodeShape::Asymmetric)
    } else {
        ShapeParse::Plain(strip_semicolon(t.take(crate::text::word_end(t, 0))))
    }
}

/// `char::is_alphanumeric`: the character is Unicode Alphabetic or Numeric.
pub uninterp spec fn spec_is_alphanumeric(c: char) -> bool;

/// `char::is_alphanumeric`; on ASCII it holds of exactly the letters and digits.
#[verifier::external_body]
fn is_alphanumeric(c: char) -> (r: bool)
    ensures
        r == spec_is_alphanumeric(c),
        (c as u32) < 0x80 ==> r == is_ascii_alnum(c),
{
    c.is_alphanumeric()
}

/// End of the run of alphanumerics and `_` at `i`.
pub open spec fn id_run_end(s: Seq<char>, i: int) -> int
    decreases s.len() - i,
{
    if 0 <= i < s.len() && (spec_is_alphanumeric(s[i]) || s[i] == '_') {
        id_run_end(s, i + 1)
    } else {
        i
    }
}

/// The id as written, or, when it is empty, the leading alphanumerics and `_`
/// of the whole text.
pub open spec fn spec_extract_id(id: Seq<char>, full: Seq<char>) -> Seq<char> {
    if id.len() == 0 {
        full.take(id_run_end(full, 0))
    } else {
        id
    }
}

/// A node text as the shape rules see it: trimmed, one `;` dropped.
pub open spec fn prep_node_text(text: Seq<char>) -> Seq<char> {
    strip_semicolon(trim(text))
}

/// Parsing this node text would panic.
pub open spec fn node_text_panics(text: Seq<char>) -> bool {
    let t = prep_node_text(text);
    t.len() > 0 && shape_parse(t) is Panics
}

/// Id, cleaned label and shape of a node text; `None` for an empty one.
pub open spec fn spec_node_from_text(text: Seq<char>) -> Option<(Seq<char>, Seq<char>, NodeShape)> {
    let t = prep_node_text(text);
    if t.len() == 0 {
        None
    } else {
        match shape_parse(t) {
            ShapeParse::Shaped(id, label, shape) => Some((spec_extract_id(id, t), spec_clean_label(label), shape)),
            ShapeParse::Plain(id) => Some((id, id, NodeShape::Rectangle)),
            ShapeParse::Panics => None,
        }
    }
}

pub open spec fn parts_view(p: (Vec<char>, Vec<char>, NodeShape)) -> (Seq<char>, Seq<char>, NodeShape) {
    (p.0@, p.1@, p.2)
}

fn find_str(t: &[char], p: &str) -> (r: Option<usize>)
    ensures
        match r {
            Some(k) => find(t@, p@) == Some(k as int) && occurs_at(t@, p@, k as int) && k + p@.len() <= t@.len(),
            None => find(t@, p@) is None,
        },
{
    let pv = chars_of(p);
    proof {
        lemma_find_from_props(t@, p@, 0);
    }
    find_exec(t, &pv)
}

fn rfind_str_exec(s: &[char], p: &[char]) -> (r: Option<usize>)
    ensures
        match r {
            Some(k) => rfind_str(s@, p@) == Some(k as int) && occurs_at(s@, p@, k as int),
            None => rfind_str(s@, p@) is None,
        },
{
    let mut j = s.len();
    assert(!occurs_at(s@, p@, s@.len() as int) || p@.len() == 0);
    if p.len() == 0 {
        assert(occurs_at(s@, p@, s@.len() as int)) by {
            assert(s@.subrange(s@.len() as int, s@.len() as int) =~= p@);
        }
        return Some(s.len());
    }
    assert(rfind_str_before(s@, p@, s@.len() as int + 1) == rfind_str_before(s@, p@, s@.len() as int));
    while j > 0
        invariant
            j <= s@.len(),
            rfind_str_before(s@, p@, j as int) == rfind_str(s@, p@),
        decreases j,
    {
        if occurs_at_exec(s, p, j - 1) {
            return Some(j - 1);
        }
        j = j - 1;
    }
    None
}

fn is_alphanumeric_or_underscore(c: char) -> (r: bool)
    ensures
        r == (spec_is_alphanumeric(c) || c == '_'),
{
    is_alphanumeric(c) || c == '_'
}

fn extract_id(id: Vec<char>, full: &[char]) -> (r: Vec<char>)
    ensures
        r@ == spec_extract_id(id@, full@),
{
    if id.len() == 0 {
        let mut k: usize = 0;
        while k < full.len() && is_alphanumeric_or_underscore(full[k])
            invariant
                k <= full@.len(),
                id_run_end(full@, k as int) == id_run_end(full@, 0),
            decreases full@.len() - k,
        {
            k = k + 1;
        }
        slice_of(full, 0, k)
    } else {
        id
    }
}

/// What [`shape_parse`] gives, as executable values.
pub enum ShapeOut {
    Panics,
    Shaped(Vec<char>, Vec<char>, NodeShape),
    Plain(Vec<char>),
}

pub open spec fn shape_out_view(o: ShapeOut) -> ShapeParse {
    match o {
        ShapeOut::Panics => ShapeParse::Panics,
        ShapeOut::Shaped(a, b, s) => ShapeParse::Shaped(a@, b@, s),
        ShapeOut::Plain(a) => ShapeParse::Plain(a@),
    }
}

fn opener_closer_exec(t: &[char], open: &str, close: &str, k: usize, shape: NodeShape) -> (r: ShapeOut)
    requires
        contains(t@, open@),
        contains(t@, close@),
        k <= 2,
    ensures
        shape_out_view(r) == opener_closer(t@, open@, close@, k as int, shape),
{
    let start = find_str(t, open).unwrap();
    let end = find_str(t, close).unwrap();
    if end < start || end - start < k {
        ShapeOut::Panics
    } else {
        ShapeOut::Shaped(trim_of(&slice_of(t, 0, start)), trim_of(&slice_of(t, start + k, end)), shape)
    }
}

fn char_span_exec(t: &[char], open: char, close: char, shape: NodeShape) -> (r: ShapeOut)
    requires
        has(t@, open),
        has(t@, close),
    ensures
        shape_out_view(r) == char_span(t@, open, close, shape),
{
    let start = find_char_checked(t, open).unwrap();
    let end = rfind_char_checked(t, close).unwrap();
    if end <= start {
        ShapeOut::Panics
    } else {
        ShapeOut::Shaped(trim_of(&slice_of(t, 0, start)), trim_of(&slice_of(t, start + 1, end)), shape)
    }
}

fn has_exec(t: &[char], c: char) -> (r: bool)
    ensures
        r == has(t@, c),
{
    find_char_checked(t, c).is_some()
}

fn has_str(t: &[char], p: &str) -> (r: bool)
    ensures
        r == contains(t@, p@),
{
    find_str(t, p).is_some()
}

#[verifier::rlimit(40)]
fn shape_parse_exec(t: &[char]) -> (r: ShapeOut)
    ensures
        shape_out_view(r) == shape_parse(t@),
{
    proof {
        reveal_strlit("([");
        reveal_strlit("])");
        reveal_strlit("(((");
        reveal_strlit(")))");
        reveal_strlit("[\\");
        reveal_strlit("[/");
    }
    let n = t.len();
    if has_str(t, "([") && has_str(t, "])") {
        let start = find_str(t, "([").unwrap();
        let end = find_str(t, "])").unwrap();
        if end < start + 2 {
            return ShapeOut::Panics;
        }
        let trimmed = trim_of(&slice_of(t, 0, start));
        let id = if trimmed.len() == 0 {
            slice_of(t, 0, if start >= 1 { start } else { 1 })
        } else {
            trimmed
        };
        return ShapeOut::Shaped(id, trim_of(&slice_of(t, start + 2, end)), NodeShape::Stadium);
    }
    match find_str(t, "(((") {
        Some(start) => {
            let tail = slice_of(t, start, n);
            assert(tail@ =~= t@.skip(start as int));
            match find_str(&tail, ")))") {
                Some(rel) => {
                    assert(rel >= 3) by {
                        if rel < 3 {
                            assert(tail@.subrange(rel as int, rel + 3)[0] == ")))"@[0]);
                            assert(tail@[rel as int] == ')');
                            assert(t@.subrange(start as int, start + 3)[rel as int] == "((("@[rel as int]);
                            assert(t@[start + rel] == '(');
                        }
                    }
                    return ShapeOut::Shaped(
                        trim_of(&slice_of(t, 0, start)),
                        trim_of(&slice_of(t, start + 3, start + rel)),
                        NodeShape::DoubleCircle,
                    );
                },
                None => {},
            }
        },
        None => {},
    }
    if has_str(t, "((") && has_str(t, "))") {
        return opener_closer_exec(t, "((", "))", 2, NodeShape::Circle);
    }
    if has_str(t, "[(") && has_str(t, ")]") {
        return opener_closer_exec(t, "[(", ")]", 2, NodeShape::Cylinder);
    }
    if has_str(t, "[[") && has_str(t, "]]") {
        return opener_closer_exec(t, "[[", "]]", 2, NodeShape::Subroutine);
    }
    if has_str(t, "{{") && has_str(t, "}}") {
        return opener_closer_exec(t, "{{", "}}", 2, NodeShape::Hexagon);
    }
    if has_exec(t, '{') && has_exec(t, '}') && !has_str(t, "{{") {
        return char_span_exec(t, '{', '}', NodeShape::Diamond);
    }
    match find_str(t, "[\\") {
        Some(start) => {
            let after = slice_of(t, start + 2, n);
            assert(after@ =~= t@.skip(start + 2));
            match find_str(&after, "/]") {
                Some(rel) => {
                    let label = trim_of(&slice_of(&after, 0, rel));
                    assert(after@.subrange(0, rel as int) =~= after@.take(rel as int));
                    return ShapeOut::Shaped(trim_of(&slice_of(t, 0, start)), label, NodeShape::TrapezoidInv);
                },
                None => {},
            }
        },
        None => {},
    }
    match find_str(t, "[/") {
        Some(start) => {
            let after = slice_of(t, start + 2, n);
            assert(after@ =~= t@.skip(start + 2));
            match find_str(&after, "\\]") {
                Some(rel) => {
                    assert(after@.subrange(0, rel as int) =~= after@.take(rel as int));
                    return ShapeOut::Shaped(
                        trim_of(&slice_of(t, 0, start)),
                        trim_of(&slice_of(&after, 0, rel)),
                        NodeShape::Trapezoid,
                    );
                },
                None => {},
            }
            match rfind_str_exec(&after, &chars_of("/]")) {
                Some(rel) => {
                    assert(after@.subrange(0, rel as int) =~= after@.take(rel as int));
                    return ShapeOut::Shaped(
                        trim_of(&slice_of(t, 0, start)),
                        trim_of(&slice_of(&after, 0, rel)),
                        NodeShape::Parallelogram,
                    );
                },
                None => {},
            }
        },
        None => {},
    }
    if has_exec(t, '(') && has_exec(t, ')') && !has_str(t, "((") && !has_str(t, "([") && !has_str(t, "[(") {
        return char_span_exec(t, '(', ')', NodeShape::RoundRect);
    }
    if has_exec(t, '[') && has_exec(t, ']') && !has_str(t, "[[") && !has_str(t, "[(") && !has_str(t, "([")
        && !has_str(t, "[/") && !has_str(t, "[\\") {
        return char_span_exec(t, '[', ']', NodeShape::Rectangle);
    }
    match (find_char_checked(t, '>'), rfind_char_checked(t, ']')) {
        (Some(start), Some(end)) => {
            if start < end {
                return ShapeOut::Shaped(
                    trim_of(&slice_of(t, 0, start)),
                    trim_of(&slice_of(t, start + 1, end)),
                    NodeShape::Asymmetric,
                );
            }
        },
        _ => {},
    }
    let e = crate::text::word_end_exec(t, 0);
    ShapeOut::Plain(strip_trailing_semicolon(&slice_of(t, 0, e)))
}

/// A node text's id, cleaned label and shape: `Ok(None)` for an empty text,
/// `Err(())` where slicing it would panic.
fn parse_node_from_text(text: &[char]) -> (r: Result<Option<(Vec<char>, Vec<char>, NodeShape)>, ()>)
    ensures
        r is Err <==> node_text_panics(text@),
        r matches Ok(o) ==> match o {
            Some(p) => spec_node_from_text(text@) == Some(parts_view(p)),
            None => spec_node_from_text(text@) is None,
        },
{
    let t = strip_trailing_semicolon(&trim_of(text));
    if t.len() == 0 {
        return Ok(None);
    }
    match shape_parse_exec(&t) {
        ShapeOut::Panics => Err(()),
        ShapeOut::Shaped(id, label, shape) => {
            let id = extract_id(id, &t);
            Ok(Some((id, clean_label_chars(&label), shape)))
        },
        ShapeOut::Plain(id) => {
            let label = slice_of(&id, 0, id.len());
            assert(label@ =~= id@);
            Ok(Some((id, label, NodeShape::Rectangle)))
        },
    }
}

// ─────────────────────────────────────────────────────────────────────────────
// Edge lines
// ─────────────────────────────────────────────────────────────────────────────

pub type NodeTriple = (Seq<char>, Seq<char>, NodeShape);

proof fn lemma_trim_len(s: Seq<char>)
    ensures
        trim_start(s).len() <= s.len(),
        trim_end(s).len() <= s.len(),
        trim(s).len() <= s.len(),
{
    lemma_skip_ws_bounds(s, 0);
    crate::text::lemma_back_ws_bounds(s, s.len() as int);
    let t = trim_start(s);
    crate::text::lemma_back_ws_bounds(t, t.len() as int);
}

proof fn lemma_edge_label_shorter(text: Seq<char>)
    ensures
        spec_edge_label(text).1.len() <= text.len(),
{
    let t = trim(text);
    lemma_trim_len(text);
    if t.len() > 0 && t[0] == '|' {
        lemma_find_char_from_props(t.skip(1), '|', 0);
        match find_char(t.skip(1), '|') {
            Some(e) => {
                lemma_trim_len(t.skip(e + 2));
            },
            None => {},
        }
    }
}

/// Some node id in `ns` is `id`.
pub open spec fn node_seen(ns: Seq<NodeTriple>, id: Seq<char>) -> bool {
    exists|i: int| 0 <= i < ns.len() && (#[trigger] ns[i]).0 == id
}

/// The nodes after the first `k` part texts (a node not seen yet is
/// appended), and the ids those parts name, in order.
pub open spec fn add_parts(parts: Seq<Seq<char>>, k: int, nodes: Seq<NodeTriple>) -> (Seq<NodeTriple>, Seq<Seq<char>>)
    decreases k,
{
    if k <= 0 || k > parts.len() {
        (nodes, seq![])
    } else {
        let (ns, ids) = add_parts(parts, k - 1, nodes);
        match spec_node_from_text(parts[k - 1]) {
            Some(n) => (if node_seen(ns, n.0) { ns } else { ns.push(n) }, ids.push(n.0)),
            None => (ns, ids),
        }
    }
}

/// Some part text would panic.
pub open spec fn any_panics(parts: Seq<Seq<char>>) -> bool {
    exists|i: int| 0 <= i < parts.len() && node_text_panics(#[trigger] parts[i])
}

/// An edge from each of the first `k` sources to each target, source by source.
pub open spec fn edges_from(froms: Seq<Seq<char>>, tos: Seq<Seq<char>>, k: int, label: Option<Seq<char>>, style: EdgeStyle, a: ArrowHead, b: ArrowHead) -> Seq<EdgeView>
    decreases k,
{
    if k <= 0 || k > froms.len() {
        seq![]
    } else {
        edges_from(froms, tos, k - 1, label, style, a, b) + tos.map_values(|t: Seq<char>| EdgeView { from: froms[k - 1], to: t, label, style, arrow_start: a, arrow_end: b })
    }
}

/// One segment of an edge line: the text before the first arrow names the
/// sources (none: the previous segment's targets), an optional `|label|` or
/// dash label, and the text up to the next arrow names the targets.
pub struct Segment {
    pub sources: Seq<Seq<char>>,
    pub from_text: Seq<char>,
    pub label: Option<Seq<char>>,
    pub target_parts: Seq<Seq<char>>,
    pub rest: Seq<char>,
}

/// The segment `remaining` starts with, once an arrow `m` was found in it.
pub open spec fn segment(remaining: Seq<char>, m: ArrowMatch) -> Segment {
    let raw = trim(remaining.take(m.0));
    let after = remaining.skip(m.0 + m.1.len());
    let (pipe, rest) = spec_edge_label(after);
    let (node_text, dash) = spec_dash_label(raw);
    let next = trim(rest);
    let target_end = match find_arrow(next) {
        Some(m2) => m2.0,
        None => next.len() as int,
    };
    Segment {
        sources: if node_text.len() > 0 { spec_split_amp(node_text) } else { seq![] },
        from_text: node_text,
        label: if pipe is Some { pipe } else { dash },
        target_parts: spec_split_amp(strip_semicolon(trim(next.take(target_end)))),
        rest: next.skip(target_end),
    }
}

/// Nodes and edges after the segments of `remaining`.
pub open spec fn edge_loop(remaining: Seq<char>, prev: Seq<Seq<char>>, nodes: Seq<NodeTriple>, edges: Seq<EdgeView>) -> (Seq<NodeTriple>, Seq<EdgeView>)
    decreases remaining.len(),
{
    if remaining.len() == 0 {
        (nodes, edges)
    } else {
        match find_arrow(remaining) {
            None => (nodes, edges),
            Some(m) => {
                let sg = segment(remaining, m);
                let (nodes1, from_ids) = if sg.from_text.len() > 0 {
                    add_parts(sg.sources, sg.sources.len() as int, nodes)
                } else {
                    (nodes, prev)
                };
                let (nodes2, to_ids) = add_parts(sg.target_parts, sg.target_parts.len() as int, nodes1);
                let edges2 = edges + edges_from(from_ids, to_ids, from_ids.len() as int, sg.label, m.2, m.3, m.4);
                if sg.rest.len() < remaining.len() {
                    edge_loop(sg.rest, to_ids, nodes2, edges2)
                } else {
                    (nodes2, edges2)
                }
            },
        }
    }
}

/// Some node text of the segments of `remaining` would panic.
pub open spec fn edge_loop_panics(remaining: Seq<char>) -> bool
    decreases remaining.len(),
{
    if remaining.len() == 0 {
        false
    } else {
        match find_arrow(remaining) {
            None => false,
            Some(m) => {
                let sg = segment(remaining, m);
                any_panics(sg.sources) || any_panics(sg.target_parts) || (sg.rest.len() < remaining.len()
                    && edge_loop_panics(sg.rest))
            },
        }
    }
}

/// An edge line with its chains (`A --> B --> C`) and `&` lists: the nodes in
/// order of first mention and the edges; `None` without an arrow or a node.
pub open spec fn spec_edge_line(line: Seq<char>) -> Option<(Seq<NodeTriple>, Seq<EdgeView>)> {
    let l = strip_semicolon(trim(line));
    if find_arrow(l) is None {
        None
    } else {
        let r = edge_loop(l, seq![], seq![], seq![]);
        if r.0.len() == 0 {
            None
        } else {
            Some(r)
        }
    }
}

pub open spec fn edge_line_panics(line: Seq<char>) -> bool {
    let l = strip_semicolon(trim(line));
    find_arrow(l) is Some && edge_loop_panics(l)
}

/// An edge as executable values.
pub struct EdgeRaw {
    pub from: Vec<char>,
    pub to: Vec<char>,
    pub label: Option<Vec<char>>,
    pub style: EdgeStyle,
    pub arrow_start: ArrowHead,
    pub arrow_end: ArrowHead,
}

pub open spec fn edge_raw_view(e: EdgeRaw) -> EdgeView {
    EdgeView { from: e.from@, to: e.to@, label: ov(e.label), style: e.style, arrow_start: e.arrow_start, arrow_end: e.arrow_end }
}

pub open spec fn edges_raw_view(v: Seq<EdgeRaw>) -> Seq<EdgeView> {
    v.map_values(|e: EdgeRaw| edge_raw_view(e))
}

pub open spec fn nodes_view(v: Seq<(Vec<char>, Vec<char>, NodeShape)>) -> Seq<NodeTriple> {
    v.map_values(|p: (Vec<char>, Vec<char>, NodeShape)| parts_view(p))
}

fn copy_chars(v: &[char]) -> (r: Vec<char>)
    ensures
        r@ == v@,
{
    let r = slice_of(v, 0, v.len());
    assert(r@ =~= v@);
    r
}

fn copy_opt(o: &Option<Vec<char>>) -> (r: Option<Vec<char>>)
    ensures
        ov(r) == ov(*o),
{
    match o {
        Some(v) => Some(copy_chars(v)),
        None => None,
    }
}

fn node_seen_exec(nodes: &Vec<(Vec<char>, Vec<char>, NodeShape)>, id: &[char]) -> (r: bool)
    ensures
        r == node_seen(nodes_view(nodes@), id@),
{
    let ghost nv = nodes_view(nodes@);
    let mut i: usize = 0;
    while i < nodes.len()
        invariant
            i <= nodes@.len(),
            nv == nodes_view(nodes@),
            forall|j: int| 0 <= j < i ==> (#[trigger] nv[j]).0 != id@,
        decreases nodes@.len() - i,
    {
        assert(nv[i as int] == parts_view(nodes@[i as int]));
        if eq(&nodes[i].0, id) {
            return true;
        }
        i = i + 1;
    }
    false
}

fn add_parts_exec(parts: &Vec<Vec<char>>, nodes: &mut Vec<(Vec<char>, Vec<char>, NodeShape)>) -> (r: Result<Vec<Vec<char>>, ()>)
    ensures
        r is Err <==> any_panics(parts.deep_view()),
        r matches Ok(ids) ==> (nodes_view(final(nodes)@), ids.deep_view()) == add_parts(parts.deep_view(), parts.deep_view().len() as int, nodes_view(old(nodes)@)),
{
    let ghost pv = parts.deep_view();
    let ghost n0 = nodes_view(nodes@);
    let mut ids: Vec<Vec<char>> = Vec::new();
    let mut k: usize = 0;
    while k < parts.len()
        invariant
            k <= parts@.len(),
            pv == parts.deep_view(),
            (nodes_view(nodes@), ids.deep_view()) == add_parts(pv, k as int, n0),
            forall|j: int| 0 <= j < k ==> !node_text_panics(#[trigger] pv[j]),
        decreases parts@.len() - k,
    {
        assert(pv[k as int] == parts@[k as int]@);
        match parse_node_from_text(&parts[k]) {
            Err(()) => {
                return Err(());
            },
            Ok(o) => {
                match o {
                    Some(triple) => {
                        let ghost nb = nodes_view(nodes@);
                        let ghost ib = ids.deep_view();
                        let id_copy = copy_chars(&triple.0);
                        if !node_seen_exec(nodes, &triple.0) {
                            let ghost old_nodes = nodes@;
                            nodes.push(triple);
                            assert(nodes@ =~= old_nodes.push(triple));
                            assert(nodes_view(nodes@) =~= nb.push(parts_view(triple)));
                        }
                        assert(id_copy.deep_view() =~= id_copy@);
                        ids.push(id_copy);
                        assert(ids.deep_view() =~= ib.push(id_copy@));
                    },
                    None => {},
                }
            },
        }
        k = k + 1;
    }
    Ok(ids)
}

fn edges_from_exec(
    froms: &Vec<Vec<char>>,
    tos: &Vec<Vec<char>>,
    label: &Option<Vec<char>>,
    style: EdgeStyle,
    a: ArrowHead,
    b: ArrowHead,
    edges: &mut Vec<EdgeRaw>,
)
    ensures
        edges_raw_view(final(edges)@) == edges_raw_view(old(edges)@) + edges_from(froms.deep_view(), tos.deep_view(), froms.deep_view().len() as int, ov(*label), style, a, b),
{
    let ghost fv = froms.deep_view();
    let ghost tv = tos.deep_view();
    let ghost e0 = edges_raw_view(edges@);
    let mut i: usize = 0;
    while i < froms.len()
        invariant
            i <= froms@.len(),
            fv == froms.deep_view(),
            tv == tos.deep_view(),
            edges_raw_view(edges@) == e0 + edges_from(fv, tv, i as int, ov(*label), style, a, b),
        decreases froms@.len() - i,
    {
        assert(fv[i as int] == froms@[i as int]@);
        let ghost base = edges_raw_view(edges@);
        let mut j: usize = 0;
        while j < tos.len()
            invariant
                i < froms@.len(),
                j <= tos@.len(),
                fv == froms.deep_view(),
                tv == tos.deep_view(),
                fv[i as int] == froms@[i as int]@,
                edges_raw_view(edges@) == base + tv.take(j as int).map_values(|t: Seq<char>| EdgeView { from: fv[i as int], to: t, label: ov(*label), style, arrow_start: a, arrow_end: b }),
            decreases tos@.len() - j,
        {
            assert(tv[j as int] == tos@[j as int]@);
            let ghost before = edges@;
            let e = EdgeRaw {
                from: copy_chars(&froms[i]),
                to: copy_chars(&tos[j]),
                label: copy_opt(label),
                style,
                arrow_start: a,
                arrow_end: b,
            };
            let ghost ev = EdgeView { from: fv[i as int], to: tv[j as int], label: ov(*label), style, arrow_start: a, arrow_end: b };
            assert(edge_raw_view(e) == ev);
            edges.push(e);
            assert(edges@ =~= before.push(e));
            assert(edges_raw_view(edges@) =~= edges_raw_view(before).push(ev));
            assert(tv.take(j + 1) =~= tv.take(j as int).push(tv[j as int]));
            assert(tv.take(j + 1).map_values(|t: Seq<char>| EdgeView { from: fv[i as int], to: t, label: ov(*label), style, arrow_start: a, arrow_end: b }) =~= tv.take(j as int).map_values(|t: Seq<char>| EdgeView { from: fv[i as int], to: t, label: ov(*label), style, arrow_start: a, arrow_end: b }).push(ev));
            assert(edges_raw_view(edges@) =~= base + tv.take(j + 1).map_values(|t: Seq<char>| EdgeView { from: fv[i as int], to: t, label: ov(*label), style, arrow_start: a, arrow_end: b }));
            j = j + 1;
        }
        assert(tv.take(tv.len() as int) =~= tv);
        assert(edges_raw_view(edges@) =~= e0 + edges_from(fv, tv, i + 1, ov(*label), style, a, b));
        i = i + 1;
    }
}

/// Nodes and edges of an edge line: `Ok(None)` without an arrow or a node,
/// `Err(())` where a node text would panic.
#[verifier::rlimit(60)]
fn parse_edge_line_full(line: &[char]) -> (r: Result<Option<(Vec<(Vec<char>, Vec<char>, NodeShape)>, Vec<EdgeRaw>)>, ()>)
    ensures
        r is Err <==> edge_line_panics(line@),
        r matches Ok(o) ==> match o {
            Some((ns, es)) => spec_edge_line(line@) == Some((nodes_view(ns@), edges_raw_view(es@))),
            None => spec_edge_line(line@) is None,
        },
{
    let l = strip_trailing_semicolon(&trim_of(line));
    if find_arrow_exec(&l).is_none() {
        return Ok(None);
    }
    let mut nodes: Vec<(Vec<char>, Vec<char>, NodeShape)> = Vec::new();
    let mut edges: Vec<EdgeRaw> = Vec::new();
    let mut prev: Vec<Vec<char>> = Vec::new();
    let mut rem = copy_chars(&l);
    assert(nodes_view(nodes@) =~= seq![]);
    assert(edges_raw_view(edges@) =~= seq![]);
    assert(prev.deep_view() =~= seq![]);
    loop
        invariant
            edge_loop(rem@, prev.deep_view(), nodes_view(nodes@), edges_raw_view(edges@)) == edge_loop(l@, seq![], seq![], seq![]),
            edge_loop_panics(rem@) == edge_loop_panics(l@),
            find_arrow(l@) is Some,
            l@ == strip_semicolon(trim(line@)),
        ensures
            edge_loop(l@, seq![], seq![], seq![]) == (nodes_view(nodes@), edges_raw_view(edges@)),
            !edge_loop_panics(l@),
        decreases rem@.len(),
    {
        if rem.len() == 0 {
            break;
        }
        match find_arrow_exec(&rem) {
            None => {
                break;
            },
            Some(f) => {
                let (pos, plen, style, a, b) = f;
                let ghost m = arrow_found_view(rem@, f);
                let ghost sg = segment(rem@, m);
                let n = rem.len();
                let raw_slice = slice_of(&rem, 0, pos);
                assert(raw_slice@ =~= rem@.take(pos as int));
                let raw = trim_of(&raw_slice);
                let after = slice_of(&rem, pos + plen, n);
                assert(after@ =~= rem@.skip(m.0 + m.1.len()));
                let (pipe, rest) = parse_edge_label(&after);
                let (node_text, dash) = extract_dash_label(&raw);
                let label = match pipe {
                    Some(p) => Some(p),
                    None => dash,
                };
                assert(ov(label) == sg.label);
                let next = trim_of(&rest);
                let target_end = match find_arrow_exec(&next) {
                    Some(f2) => f2.0,
                    None => next.len(),
                };
                let head = slice_of(&next, 0, target_end);
                assert(head@ =~= next@.take(target_end as int));
                let target_text = strip_trailing_semicolon(&trim_of(&head));
                let tparts = split_by_ampersand(&target_text);
                assert(tparts.deep_view() == sg.target_parts);
                let from_ids = if node_text.len() > 0 {
                    let sparts = split_by_ampersand(&node_text);
                    assert(sparts.deep_view() == sg.sources);
                    match add_parts_exec(&sparts, &mut nodes) {
                        Err(()) => {
                            assert(edge_loop_panics(rem@));
                            return Err(());
                        },
                        Ok(ids) => ids,
                    }
                } else {
                    assert(sg.sources =~= Seq::<Seq<char>>::empty());
                    prev
                };
                let to_ids = match add_parts_exec(&tparts, &mut nodes) {
                    Err(()) => {
                        assert(edge_loop_panics(rem@));
                        return Err(());
                    },
                    Ok(ids) => ids,
                };
                edges_from_exec(&from_ids, &to_ids, &label, style, a, b, &mut edges);
                let new_rem = slice_of(&next, target_end, next.len());
                assert(new_rem@ =~= next@.skip(target_end as int));
                assert(new_rem@ == sg.rest);
                proof {
                    lemma_edge_label_shorter(after@);
                    lemma_trim_len(rest@);
                }
                prev = to_ids;
                rem = new_rem;
            },
        }
    }
    if nodes.len() == 0 {
        Ok(None)
    } else {
        Ok(Some((nodes, edges)))
    }
}

// ─────────────────────────────────────────────────────────────────────────────
// Subgraph headers and position hints
// ─────────────────────────────────────────────────────────────────────────────

/// End of the run of ASCII letters at `i`.
pub open spec fn alpha_run_end(s: Seq<char>, i: int) -> int
    decreases s.len() - i,
{
    if 0 <= i < s.len() && crate::text::is_ascii_alpha(s[i]) {
        alpha_run_end(s, i + 1)
    } else {
        i
    }
}

/// The generated id of the `n`-th unnamed subgraph.
pub open spec fn auto_subgraph_id(n: nat) -> Seq<char> {
    "subgraph_"@ + decimal(n)
}

/// A `subgraph` line past its keyword: trimmed of leading letters and whitespace.
pub open spec fn subgraph_rest(line: Seq<char>) -> Seq<char> {
    trim_start(line.skip(alpha_run_end(line, 0)))
}

/// `subgraph`, `subgraph id [title]`, `subgraph "title"`, `subgraph id` or
/// `subgraph id words..`: the id, the title and the unnamed-subgraph counter
/// after the line.
pub open spec fn spec_subgraph_header(line: Seq<char>, counter: nat) -> (Seq<char>, Option<Seq<char>>, nat) {
    let rest = subgraph_rest(line);
    if rest.len() == 0 {
        (auto_subgraph_id(counter + 1), None, counter + 1)
    } else if has(rest, '[') && has(rest, ']') {
        let bs = find_char(rest, '[')->0;
        let be = rfind_char(rest, ']')->0;
        let id = trim(rest.take(bs));
        let title = trim(rest.subrange(bs + 1, be));
        if id.len() == 0 {
            (auto_subgraph_id(counter + 1), Some(title), counter + 1)
        } else {
            (id, Some(title), counter)
        }
    } else if (rest[0] == '"' || rest[0] == '\'') && find_char(rest.skip(1), rest[0]) is Some {
        let e = find_char(rest.skip(1), rest[0])->0;
        (auto_subgraph_id(counter + 1), Some(rest.subrange(1, e + 1)), counter + 1)
    } else {
        let toks = words(rest);
        if toks.len() == 1 {
            (toks[0], Some(toks[0]), counter)
        } else if toks.len() >= 2 {
            (toks[0], Some(join(toks.skip(1), " "@)), counter)
        } else {
            (auto_subgraph_id(counter + 1), Some(rest), counter + 1)
        }
    }
}

/// The header has its last `]` before its first `[`: slicing the title panics.
pub open spec fn subgraph_header_panics(line: Seq<char>) -> bool {
    let rest = subgraph_rest(line);
    rest.len() > 0 && has(rest, '[') && has(rest, ']') && rfind_char(rest, ']')->0 < find_char(rest, '[')->0
}

/// What a `%% @pos` comment line holds.
pub enum HintParse {
    NotHint,
    Malformed(Seq<char>),
    Parsed(Seq<char>, Seq<char>, Seq<char>),
}

pub open spec fn malformed_hint_message() -> Seq<char> {
    "Malformed @pos hint: expected '%% @pos <node_id> <x> <y>'"@
}

pub open spec fn invalid_coordinate_message(axis: Seq<char>, value: Seq<char>, id: Seq<char>) -> Seq<char> {
    "Invalid "@ + axis + " coordinate '"@ + value + "' in @pos hint for node '"@ + id + "'"@
}

pub open spec fn unknown_node_message(id: Seq<char>) -> Seq<char> {
    "Unknown node id '"@ + id + "' in @pos hint"@
}

pub open spec fn duplicate_hint_message(id: Seq<char>) -> Seq<char> {
    "Duplicate @pos hint for node '"@ + id + "'"@
}

/// `%% @pos <node_id> <x> <y>` (the keyword in any ASCII case): the id and
/// both coordinates, which must be float literals.
pub open spec fn spec_pos_hint(line: Seq<char>) -> HintParse {
    let t = trim(line);
    if !starts_with(t, "%%"@) {
        HintParse::NotHint
    } else {
        let after = trim(t.skip(2));
        if !starts_with(lower(after), "@pos"@) {
            HintParse::NotHint
        } else {
            let parts = words(trim(after.skip(4)));
            if parts.len() != 3 {
                HintParse::Malformed(malformed_hint_message())
            } else if !float_literal(parts[1]) {
                HintParse::Malformed(invalid_coordinate_message("x"@, parts[1], parts[0]))
            } else if !float_literal(parts[2]) {
                HintParse::Malformed(invalid_coordinate_message("y"@, parts[2], parts[0]))
            } else {
                HintParse::Parsed(parts[0], parts[1], parts[2])
            }
        }
    }
}

fn alpha_run_end_exec(s: &[char]) -> (r: usize)
    ensures
        r == alpha_run_end(s@, 0),
        r <= s@.len(),
{
    let mut k: usize = 0;
    while k < s.len() && crate::text::is_ascii_alpha_char(s[k])
        invariant
            k <= s@.len(),
            alpha_run_end(s@, k as int) == alpha_run_end(s@, 0),
        decreases s@.len() - k,
    {
        k = k + 1;
    }
    k
}

fn auto_subgraph_id_exec(n: usize) -> (r: Vec<char>)
    ensures
        r@ == auto_subgraph_id(n as nat),
{
    concat(&chars_of("subgraph_"), &decimal_exec(n as u64))
}

/// The subgraph header's id, title and new counter; `Err(())` where slicing
/// the title would panic.
fn parse_subgraph_header(line: &[char], counter: usize) -> (r: Result<(Vec<char>, Option<Vec<char>>, usize), ()>)
    requires
        counter < usize::MAX,
    ensures
        r is Err <==> subgraph_header_panics(line@),
        r matches Ok((id, title, c)) ==> spec_subgraph_header(line@, counter as nat) == (id@, ov(title), c as nat),
{
    let n = line.len();
    let a = alpha_run_end_exec(line);
    let sk = slice_of(line, a, n);
    assert(sk@ =~= line@.skip(a as int));
    let rest = trim_start_of(&sk);
    if rest.len() == 0 {
        return Ok((auto_subgraph_id_exec(counter + 1), None, counter + 1));
    }
    let rn = rest.len();
    match (find_char_checked(&rest, '['), rfind_char_checked(&rest, ']')) {
        (Some(bs), Some(be)) => {
            if be < bs {
                return Err(());
            }
            assert(be != bs);
            let id = trim_of(&slice_of(&rest, 0, bs));
            let title = trim_of(&slice_of(&rest, bs + 1, be));
            if id.len() == 0 {
                return Ok((auto_subgraph_id_exec(counter + 1), Some(title), counter + 1));
            } else {
                return Ok((id, Some(title), counter));
            }
        },
        _ => {},
    }
    let q = rest[0];
    if q == '"' || q == '\'' {
        let tail = slice_of(&rest, 1, rn);
        assert(tail@ =~= rest@.skip(1));
        match find_char_checked(&tail, q) {
            Some(e) => {
                return Ok((auto_subgraph_id_exec(counter + 1), Some(slice_of(&rest, 1, e + 1)), counter + 1));
            },
            None => {},
        }
    }
    let toks = split_ws(&rest);
    let ghost tv = toks.deep_view();
    if toks.len() == 1 {
        assert(tv[0] == toks@[0]@);
        let t0 = copy_chars(&toks[0]);
        let t1 = copy_chars(&toks[0]);
        Ok((t0, Some(t1), counter))
    } else if toks.len() >= 2 {
        assert(tv[0] == toks@[0]@);
        let mut others: Vec<Vec<char>> = Vec::new();
        let mut k: usize = 1;
        while k < toks.len()
            invariant
                1 <= k <= toks@.len(),
                tv == toks.deep_view(),
                others.deep_view() == tv.subrange(1, k as int),
            decreases toks@.len() - k,
        {
            assert(tv[k as int] == toks@[k as int]@);
            let ghost before = others.deep_view();
            let w = copy_chars(&toks[k]);
            assert(w.deep_view() =~= w@);
            others.push(w);
            assert(others.deep_view() =~= before.push(w@));
            assert(others.deep_view() =~= tv.subrange(1, k + 1));
            k = k + 1;
        }
        assert(tv.subrange(1, tv.len() as int) =~= tv.skip(1));
        let title = join_exec(&others, &chars_of(" "));
        Ok((copy_chars(&toks[0]), Some(title), counter))
    } else {
        Ok((auto_subgraph_id_exec(counter + 1), Some(rest), counter + 1))
    }
}

/// What a `%% @pos` hint line holds, as executable values.
pub enum HintOut {
    NotHint,
    Malformed(Vec<char>),
    Parsed(Vec<char>, Vec<char>, Vec<char>),
}

pub open spec fn hint_out_view(h: HintOut) -> HintParse {
    match h {
        HintOut::NotHint => HintParse::NotHint,
        HintOut::Malformed(m) => HintParse::Malformed(m@),
        HintOut::Parsed(a, b, c) => HintParse::Parsed(a@, b@, c@),
    }
}

fn invalid_coordinate_exec(axis: &str, value: &[char], id: &[char]) -> (r: Vec<char>)
    ensures
        r@ == invalid_coordinate_message(axis@, value@, id@),
{
    let mut r = chars_of("Invalid ");
    append(&mut r, &chars_of(axis));
    append(&mut r, &chars_of(" coordinate '"));
    append(&mut r, value);
    append(&mut r, &chars_of("' in @pos hint for node '"));
    append(&mut r, id);
    append(&mut r, &chars_of("'"));
    r
}

fn parse_pos_hint_line(line: &[char]) -> (r: HintOut)
    ensures
        hint_out_view(r) == spec_pos_hint(line@),
{
    proof {
        reveal_strlit("%%");
        reveal_strlit("@pos");
    }
    let t = trim_of(line);
    if !starts_with_exec(&t, &chars_of("%%")) {
        return HintOut::NotHint;
    }
    let s2 = slice_of(&t, 2, t.len());
    assert(s2@ =~= t@.skip(2));
    let after = trim_of(&s2);
    if !starts_with_exec(&to_lower(&after), &chars_of("@pos")) {
        return HintOut::NotHint;
    }
    let s4 = slice_of(&after, 4, after.len());
    assert(s4@ =~= after@.skip(4));
    let parts = split_ws(&trim_of(&s4));
    let ghost pv = parts.deep_view();
    if parts.len() != 3 {
        return HintOut::Malformed(chars_of("Malformed @pos hint: expected '%% @pos <node_id> <x> <y>'"));
    }
    assert(pv[0] == parts@[0]@);
    assert(pv[1] == parts@[1]@);
    assert(pv[2] == parts@[2]@);
    if !float_literal_exec(&parts[1]) {
        return HintOut::Malformed(invalid_coordinate_exec("x", &parts[1], &parts[0]));
    }
    if !float_literal_exec(&parts[2]) {
        return HintOut::Malformed(invalid_coordinate_exec("y", &parts[2], &parts[0]));
    }
    HintOut::Parsed(copy_chars(&parts[0]), copy_chars(&parts[1]), copy_chars(&parts[2]))
}

// ─────────────────────────────────────────────────────────────────────────────
// The parser state
// ─────────────────────────────────────────────────────────────────────────────

/// What the body lines build up; subgraphs still open are on `stack`.
pub struct PState {
    pub nodes: Seq<NodeTriple>,
    pub edges: Seq<EdgeView>,
    pub subgraphs: Seq<SubgraphView>,
    pub stack: Seq<SubgraphView>,
    pub counter: nat,
    pub class_defs: Seq<(Seq<char>, StyleView)>,
    pub node_classes: Seq<(Seq<char>, Seq<char>)>,
    pub node_styles: Seq<(Seq<char>, StyleView)>,
    pub link_styles: Seq<(usize, LinkView)>,
    pub default_link_style: Option<LinkView>,
}

pub open spec fn empty_pstate() -> PState {
    PState {
        nodes: seq![],
        edges: seq![],
        subgraphs: seq![],
        stack: seq![],
        counter: 0,
        class_defs: seq![],
        node_classes: seq![],
        node_styles: seq![],
        link_styles: seq![],
        default_link_style: None,
    }
}

/// Index of the first node with id `id`, from `i` on.
pub open spec fn node_index_from(ns: Seq<NodeTriple>, id: Seq<char>, i: int) -> Option<int>
    decreases ns.len() - i,
{
    if i < 0 || i >= ns.len() {
        None
    } else if ns[i].0 == id {
        Some(i)
    } else {
        node_index_from(ns, id, i + 1)
    }
}

pub open spec fn node_index(ns: Seq<NodeTriple>, id: Seq<char>) -> Option<int> {
    node_index_from(ns, id, 0)
}

/// `id` added to the innermost open subgraph.
pub open spec fn top_push(stack: Seq<SubgraphView>, id: Seq<char>) -> Seq<SubgraphView> {
    if stack.len() > 0 {
        stack.update(stack.len() - 1, SubgraphView { node_ids: stack.last().node_ids.push(id), ..stack.last() })
    } else {
        stack
    }
}

/// `id` added to the innermost open subgraph unless already there.
pub open spec fn top_add(stack: Seq<SubgraphView>, id: Seq<char>) -> Seq<SubgraphView> {
    if stack.len() > 0 && !stack.last().node_ids.contains(id) {
        top_push(stack, id)
    } else {
        stack
    }
}

/// A node named on an edge line: a new id is appended (and joins the open
/// subgraph); a known id whose label is still its id takes the new label and
/// shape, when the new mention has a label of its own (and then joins the
/// open subgraph); otherwise nothing changes.
pub open spec fn merge_edge_node(st: PState, n: NodeTriple) -> PState {
    match node_index(st.nodes, n.0) {
        Some(i) => if n.1 != n.0 && st.nodes[i].1 == st.nodes[i].0 {
            PState { nodes: st.nodes.update(i, n), stack: top_add(st.stack, n.0), ..st }
        } else {
            st
        },
        None => PState { nodes: st.nodes.push(n), stack: top_push(st.stack, n.0), ..st },
    }
}

/// The nodes of an edge line merged in order.
pub open spec fn merge_edge_nodes(st: PState, ns: Seq<NodeTriple>, k: int) -> PState
    decreases k,
{
    if k <= 0 || k > ns.len() {
        st
    } else {
        merge_edge_node(merge_edge_nodes(st, ns, k - 1), ns[k - 1])
    }
}

/// A standalone node definition: as on an edge line, except that a known id
/// always joins the open subgraph.
pub open spec fn merge_def_node(st: PState, n: NodeTriple) -> PState {
    match node_index(st.nodes, n.0) {
        Some(i) => PState {
            nodes: if n.1 != n.0 && st.nodes[i].1 == st.nodes[i].0 { st.nodes.update(i, n) } else { st.nodes },
            stack: top_add(st.stack, n.0),
            ..st
        },
        None => PState { nodes: st.nodes.push(n), stack: top_push(st.stack, n.0), ..st },
    }
}

/// `end`: the innermost open subgraph is stored and becomes a child of its parent.
pub open spec fn close_top(st: PState) -> PState {
    if st.stack.len() == 0 {
        st
    } else {
        let b = st.stack.last();
        let s1 = st.stack.drop_last();
        let s2 = if s1.len() > 0 {
            s1.update(s1.len() - 1, SubgraphView { child_subgraph_ids: s1.last().child_subgraph_ids.push(b.id), ..s1.last() })
        } else {
            s1
        };
        PState { stack: s2, subgraphs: st.subgraphs.push(b), ..st }
    }
}

/// Every subgraph still open is closed, innermost first.
pub open spec fn close_all(st: PState) -> PState
    decreases st.stack.len(),
{
    if st.stack.len() == 0 {
        st
    } else {
        close_all(close_top(st))
    }
}

/// `l` after `assoc_put` of the first `k` pairs.
pub open spec fn put_pairs(l: Seq<(Seq<char>, Seq<char>)>, pairs: Seq<(Seq<char>, Seq<char>)>, k: int) -> Seq<(Seq<char>, Seq<char>)>
    decreases k,
{
    if k <= 0 || k > pairs.len() {
        l
    } else {
        let p = put_pairs(l, pairs, k - 1);
        assoc_put(p, pairs[k - 1].0, pairs[k - 1].1)
    }
}

/// A `style` patch: overlaid on the node's style, or stored as its style.
pub open spec fn style_put(l: Seq<(Seq<char>, StyleView)>, id: Seq<char>, patch: StyleView) -> Seq<(Seq<char>, StyleView)> {
    match assoc_index(l, id, 0) {
        Some(i) => l.update(i, (id, overlay(l[i].1, patch))),
        None => l.push((id, patch)),
    }
}

/// A `linkStyle` line: `default` (any ASCII case) sets the default style, a
/// decimal index the style of that edge; anything else is ignored.
pub open spec fn link_style_step(st: PState, line: Seq<char>) -> PState {
    match spec_link_style(line) {
        Some((idx, sty)) => if lower(idx) == "default"@ {
            PState { default_link_style: Some(sty), ..st }
        } else {
            match parse_unsigned(idx, 10, usize::MAX as nat) {
                Some(n) => PState { link_styles: assoc_put(st.link_styles, n as usize, sty), ..st },
                None => st,
            }
        },
        None => st,
    }
}

/// One body line (after the header), trimmed: comments and empty lines are
/// skipped; `classDef`, `class`, `linkStyle`, `style`, `click`, `subgraph`,
/// `end` and (inside a subgraph) `direction` lines are directives; other
/// lines are edge lines or node definitions.
#[verifier::opaque]
pub open spec fn body_step(st: PState, raw: Seq<char>) -> PState {
    let line = trim(raw);
    let ll = lower(line);
    if line.len() == 0 || starts_with(line, "%%"@) {
        st
    } else if starts_with(ll, "classdef "@) {
        match spec_class_def(line) {
            Some((name, sty)) => PState { class_defs: assoc_put(st.class_defs, name, sty), ..st },
            None => st,
        }
    } else if starts_with(ll, "class "@) {
        PState { node_classes: put_pairs(st.node_classes, spec_class_assignment(line), spec_class_assignment(line).len() as int), ..st }
    } else if starts_with(fold(line), "linkstyle "@) {
        if starts_with(ll, "linkstyle "@) {
            link_style_step(st, line)
        } else {
            st
        }
    } else if starts_with(ll, "style "@) {
        match spec_style_directive(line) {
            Some((id, patch)) => PState { node_styles: style_put(st.node_styles, id, patch), ..st },
            None => st,
        }
    } else if starts_with(fold(line), "click "@) {
        st
    } else if starts_with(ll, "subgraph"@) {
        let (id, title, c) = spec_subgraph_header(line, st.counter);
        PState {
            stack: st.stack.push(SubgraphView { id, title, node_ids: seq![], child_subgraph_ids: seq![], direction: None }),
            counter: c,
            ..st
        }
    } else if ll == "end"@ {
        close_top(st)
    } else if st.stack.len() > 0 && starts_with(ll, "direction"@) {
        PState {
            stack: st.stack.update(st.stack.len() - 1, SubgraphView { direction: Some(spec_parse_direction(ll)), ..st.stack.last() }),
            ..st
        }
    } else {
        match spec_edge_line(line) {
            Some((ns, es)) => {
                let st2 = merge_edge_nodes(st, ns, ns.len() as int);
                PState { edges: st2.edges + es, ..st2 }
            },
            None => match spec_node_from_text(line) {
                Some(n) => merge_def_node(st, n),
                None => st,
            },
        }
    }
}

/// The state after body lines `start..k`.
pub open spec fn run_body(lines: Seq<Seq<char>>, start: int, k: int) -> PState
    decreases k - start,
{
    if k <= start || k > lines.len() {
        empty_pstate()
    } else {
        body_step(run_body(lines, start, k - 1), lines[k - 1])
    }
}

// ─────────────────────────────────────────────────────────────────────────────
// When parsing panics
// ─────────────────────────────────────────────────────────────────────────────

pub open spec fn link_color_ok(prop: Seq<char>) -> bool {
    match prop_kv(prop) {
        Some((k, v)) => k == "stroke"@ ==> color_slicing_ok(v),
        None => true,
    }
}

pub open spec fn link_colors_ok(css: Seq<char>) -> bool {
    forall|i: int| 0 <= i < split(css, ',').len() ==> link_color_ok(#[trigger] split(css, ',')[i])
}

pub open spec fn class_def_panics(line: Seq<char>) -> bool {
    let rest = trim(line.skip(9));
    rest.len() > 0 && trim(split_first_ws(rest).0).len() > 0 && !props_colors_ok(class_def_props(line))
}

pub open spec fn style_directive_panics(line: Seq<char>) -> bool {
    let rest = trim(line.skip(6));
    rest.len() > 0 && trim(split_first_ws(rest).0).len() > 0 && !props_colors_ok(style_directive_props(line))
}

pub open spec fn link_style_panics(line: Seq<char>) -> bool {
    let content = trim(line.skip(10));
    line.len() > 10 && crate::text::word_end(content, 0) < content.len() && !link_colors_ok(link_style_css(line))
}

/// A `linkStyle` line spelled with the Kelvin sign for its `k`: lowercasing
/// still reads the keyword, but the keyword is two bytes longer, so the index
/// read after its first ten bytes is the keyword's `e`, which names no edge;
/// the rest of the line is still read as the style, and only its colors can
/// panic.
pub open spec fn kelvin_link_style_panics(line: Seq<char>) -> bool {
    !link_colors_ok(trim(line.skip(10)))
}

/// A node text names a node (whatever its id).
pub open spec fn names_node(p: Seq<char>) -> bool {
    prep_node_text(p).len() > 0
}

pub open spec fn any_names(parts: Seq<Seq<char>>) -> bool {
    exists|i: int| 0 <= i < parts.len() && names_node(#[trigger] parts[i])
}

/// Some segment of `remaining` names a node.
pub open spec fn loop_names(remaining: Seq<char>) -> bool
    decreases remaining.len(),
{
    if remaining.len() == 0 {
        false
    } else {
        match find_arrow(remaining) {
            None => false,
            Some(m) => {
                let sg = segment(remaining, m);
                any_names(sg.sources) || any_names(sg.target_parts) || (sg.rest.len() < remaining.len()
                    && loop_names(sg.rest))
            },
        }
    }
}

/// The line has an arrow and names a node: it is an edge line.
pub open spec fn edge_line_named(line: Seq<char>) -> bool {
    let l = strip_semicolon(trim(line));
    find_arrow(l) is Some && loop_names(l)
}

/// Whether this body line panics, with `depth` subgraphs open.
#[verifier::opaque]
pub open spec fn body_line_panics(raw: Seq<char>, depth: nat) -> bool {
    let line = trim(raw);
    let ll = lower(line);
    if line.len() == 0 || starts_with(line, "%%"@) {
        false
    } else if starts_with(ll, "classdef "@) {
        class_def_panics(line)
    } else if starts_with(ll, "class "@) {
        false
    } else if starts_with(fold(line), "linkstyle "@) {
        if starts_with(ll, "linkstyle "@) {
            link_style_panics(line)
        } else {
            kelvin_link_style_panics(line)
        }
    } else if starts_with(ll, "style "@) {
        style_directive_panics(line)
    } else if starts_with(fold(line), "click "@) {
        false
    } else if starts_with(ll, "subgraph"@) {
        subgraph_header_panics(line)
    } else if ll == "end"@ {
        false
    } else if depth > 0 && starts_with(ll, "direction"@) {
        false
    } else {
        edge_line_panics(line) || (!edge_line_named(line) && node_text_panics(line))
    }
}

/// Open subgraphs after this body line.
pub open spec fn depth_after(raw: Seq<char>, depth: nat) -> nat {
    let line = trim(raw);
    let ll = lower(line);
    if line.len() == 0 || starts_with(line, "%%"@) {
        depth
    } else if starts_with(ll, "classdef "@) || starts_with(ll, "class "@) || starts_with(fold(line), "linkstyle "@)
        || starts_with(ll, "style "@) || starts_with(fold(line), "click "@) {
        depth
    } else if starts_with(ll, "subgraph"@) {
        depth + 1
    } else if ll == "end"@ {
        if depth > 0 {
            (depth - 1) as nat
        } else {
            0
        }
    } else {
        depth
    }
}

/// Whether some body line among `start..k` panics, and the depth after them.
pub open spec fn body_panics_upto(lines: Seq<Seq<char>>, start: int, k: int) -> (bool, nat)
    decreases k - start,
{
    if k <= start || k > lines.len() {
        (false, 0)
    } else {
        let (p, d) = body_panics_upto(lines, start, k - 1);
        (p || body_line_panics(lines[k - 1], d), depth_after(lines[k - 1], d))
    }
}

// ─────────────────────────────────────────────────────────────────────────────
// The whole chart
// ─────────────────────────────────────────────────────────────────────────────

/// Header search: empty and `%%` lines are skipped; the first other line must
/// start (in any ASCII case) with `flowchart` or `graph`. The direction and the
/// index of the first body line.
pub open spec fn header_scan(lines: Seq<Seq<char>>, i: int) -> Result<(FlowDirection, int), Seq<char>>
    decreases lines.len() - i,
{
    if i < 0 || i >= lines.len() {
        Err("Empty flowchart source"@)
    } else {
        let h = trim(lines[i]);
        if h.len() == 0 || starts_with(h, "%%"@) {
            header_scan(lines, i + 1)
        } else if starts_with(lower(h), "flowchart"@) || starts_with(lower(h), "graph"@) {
            Ok((spec_parse_direction(lower(h)), i + 1))
        } else {
            Err("Expected 'flowchart' or 'graph' declaration"@)
        }
    }
}

pub open spec fn hint_seen(hs: Seq<HintView>, id: Seq<char>) -> bool {
    exists|i: int| 0 <= i < hs.len() && (#[trigger] hs[i]).node_id == id
}

/// Position hints and warnings from source lines `..k` (line numbers from 1):
/// a hint for an unknown node or a node hinted before is a warning; the first
/// hint of a node is kept.
pub open spec fn hints_upto(lines: Seq<Seq<char>>, k: int, nodes: Seq<NodeTriple>) -> (Seq<HintView>, Seq<WarnView>)
    decreases k,
{
    if k <= 0 || k > lines.len() {
        (seq![], seq![])
    } else {
        let (hs, ws) = hints_upto(lines, k - 1, nodes);
        let no = k as nat;
        match spec_pos_hint(lines[k - 1]) {
            HintParse::NotHint => (hs, ws),
            HintParse::Malformed(m) => (hs, ws.push(WarnView { line: no, message: m })),
            HintParse::Parsed(id, x, y) => if !node_seen(nodes, id) {
                (hs, ws.push(WarnView { line: no, message: unknown_node_message(id) }))
            } else if hint_seen(hs, id) {
                (hs, ws.push(WarnView { line: no, message: duplicate_hint_message(id) }))
            } else {
                (hs.push(HintView { node_id: id, x, y }), ws)
            },
        }
    }
}

pub open spec fn triple_node(t: NodeTriple) -> NodeView {
    NodeView { id: t.0, label: t.1, shape: t.2 }
}

/// The chart of a Mermaid flowchart source, or the error message.
pub open spec fn spec_parse_flowchart(source: Seq<char>) -> Result<ChartView, Seq<char>> {
    let ls = lines(source);
    match header_scan(ls, 0) {
        Err(msg) => Err(msg),
        Ok((dir, start)) => {
            let st = close_all(run_body(ls, start, ls.len() as int));
            let (hs, ws) = hints_upto(ls, ls.len() as int, st.nodes);
            Ok(ChartView {
                direction: dir,
                nodes: st.nodes.map_values(|t: NodeTriple| triple_node(t)),
                edges: st.edges,
                subgraphs: st.subgraphs,
                class_defs: st.class_defs,
                node_classes: st.node_classes,
                node_styles: st.node_styles,
                link_styles: st.link_styles,
                default_link_style: st.default_link_style,
                position_hints: hs,
                warnings: ws,
            })
        },
    }
}

/// Parsing this source panics (a shape or subgraph title with its closer
/// before its opener, or a color that byte slicing would cut).
pub open spec fn flowchart_panics(source: Seq<char>) -> bool {
    let ls = lines(source);
    match header_scan(ls, 0) {
        Ok((_, start)) => body_panics_upto(ls, start, ls.len() as int).0,
        Err(_) => false,
    }
}

// ─────────────────────────────────────────────────────────────────────────────
// Lemmas: when an edge line names a node
// ─────────────────────────────────────────────────────────────────────────────

proof fn lemma_add_parts_len(parts: Seq<Seq<char>>, k: int, ns: Seq<NodeTriple>)
    requires
        forall|j: int| 0 <= j < parts.len() ==> !node_text_panics(#[trigger] parts[j]),
        0 <= k <= parts.len(),
    ensures
        add_parts(parts, k, ns).0.len() >= ns.len(),
        add_parts(parts, k, ns).0.len() == 0 <==> (ns.len() == 0 && forall|j: int| 0 <= j < k ==> !names_node(#[trigger] parts[j])),
    decreases k,
{
    if k > 0 {
        lemma_add_parts_len(parts, k - 1, ns);
        let p = parts[k - 1];
        assert(!node_text_panics(p));
        if names_node(p) {
            assert(spec_node_from_text(p) is Some);
        } else {
            assert(spec_node_from_text(p) is None);
        }
        if add_parts(parts, k, ns).0.len() == 0 {
            assert forall|j: int| 0 <= j < k implies !names_node(#[trigger] parts[j]) by {
                if j < k - 1 {
                } else {
                }
            }
        }
    }
}

proof fn lemma_edge_loop_nodes(rem: Seq<char>, prev: Seq<Seq<char>>, ns: Seq<NodeTriple>, es: Seq<EdgeView>)
    requires
        !edge_loop_panics(rem),
    ensures
        edge_loop(rem, prev, ns, es).0.len() >= ns.len(),
        edge_loop(rem, prev, ns, es).0.len() == 0 <==> (ns.len() == 0 && !loop_names(rem)),
    decreases rem.len(),
{
    if rem.len() == 0 {
    } else {
        match find_arrow(rem) {
            None => {},
            Some(m) => {
                let sg = segment(rem, m);
                assert(!any_panics(sg.sources));
                assert(!any_panics(sg.target_parts));
                let (nodes1, from_ids) = if sg.from_text.len() > 0 {
                    add_parts(sg.sources, sg.sources.len() as int, ns)
                } else {
                    (ns, prev)
                };
                if sg.from_text.len() > 0 {
                    lemma_add_parts_len(sg.sources, sg.sources.len() as int, ns);
                } else {
                    assert(!any_names(sg.sources));
                }
                lemma_add_parts_len(sg.target_parts, sg.target_parts.len() as int, nodes1);
                let (nodes2, to_ids) = add_parts(sg.target_parts, sg.target_parts.len() as int, nodes1);
                let edges2 = es + edges_from(from_ids, to_ids, from_ids.len() as int, sg.label, m.2, m.3, m.4);
                if sg.rest.len() < rem.len() {
                    lemma_edge_loop_nodes(sg.rest, to_ids, nodes2, edges2);
                }
            },
        }
    }
}

proof fn lemma_edge_line_named(line: Seq<char>)
    requires
        !edge_line_panics(line),
    ensures
        spec_edge_line(line) is Some <==> edge_line_named(line),
{
    let l = strip_semicolon(trim(line));
    if find_arrow(l) is Some {
        lemma_edge_loop_nodes(l, seq![], seq![], seq![]);
    }
}

// ─────────────────────────────────────────────────────────────────────────────
// The parser state as executable values
// ─────────────────────────────────────────────────────────────────────────────

/// A subgraph as executable values.
pub struct SubRaw {
    pub id: Vec<char>,
    pub title: Option<Vec<char>>,
    pub node_ids: Vec<Vec<char>>,
    pub children: Vec<Vec<char>>,
    pub direction: Option<FlowDirection>,
}

pub open spec fn sub_raw_view(b: SubRaw) -> SubgraphView {
    SubgraphView {
        id: b.id@,
        title: ov(b.title),
        node_ids: b.node_ids.deep_view(),
        child_subgraph_ids: b.children.deep_view(),
        direction: b.direction,
    }
}

pub open spec fn subs_view(v: Seq<SubRaw>) -> Seq<SubgraphView> {
    v.map_values(|b: SubRaw| sub_raw_view(b))
}

/// The parser state as executable values.
pub struct Acc {
    pub nodes: Vec<(Vec<char>, Vec<char>, NodeShape)>,
    pub edges: Vec<EdgeRaw>,
    pub subgraphs: Vec<SubRaw>,
    pub stack: Vec<SubRaw>,
    pub counter: usize,
    pub class_defs: Vec<(Vec<char>, NodeStyle)>,
    pub node_classes: Vec<(Vec<char>, Vec<char>)>,
    pub node_styles: Vec<(Vec<char>, NodeStyle)>,
    pub link_styles: Vec<(usize, LinkStyle)>,
    pub default_link_style: Option<LinkStyle>,
}

pub open spec fn styles_view(v: Seq<(Vec<char>, NodeStyle)>) -> Seq<(Seq<char>, StyleView)> {
    v.map_values(|p: (Vec<char>, NodeStyle)| (p.0@, style_view(p.1)))
}

pub open spec fn pairs_view(v: Seq<(Vec<char>, Vec<char>)>) -> Seq<(Seq<char>, Seq<char>)> {
    v.map_values(|p: (Vec<char>, Vec<char>)| (p.0@, p.1@))
}

pub open spec fn links_view(v: Seq<(usize, LinkStyle)>) -> Seq<(usize, LinkView)> {
    v.map_values(|p: (usize, LinkStyle)| (p.0, link_view(p.1)))
}

pub open spec fn acc_view(a: Acc) -> PState {
    PState {
        nodes: nodes_view(a.nodes@),
        edges: edges_raw_view(a.edges@),
        subgraphs: subs_view(a.subgraphs@),
        stack: subs_view(a.stack@),
        counter: a.counter as nat,
        class_defs: styles_view(a.class_defs@),
        node_classes: pairs_view(a.node_classes@),
        node_styles: styles_view(a.node_styles@),
        link_styles: links_view(a.link_styles@),
        default_link_style: match a.default_link_style {
            Some(l) => Some(link_view(l)),
            None => None,
        },
    }
}

proof fn lemma_assoc_first<K, W>(l: Seq<(K, W)>, k: K, i: int, j: int)
    requires
        0 <= i <= j <= l.len(),
        j < l.len() ==> l[j].0 == k,
        forall|t: int| i <= t < j ==> l[t].0 != k,
    ensures
        assoc_index(l, k, i) == (if j < l.len() { Some(j) } else { None::<int> }),
    decreases j - i,
{
    if i < j {
        lemma_assoc_first(l, k, i + 1, j);
    }
}

proof fn lemma_node_index_first(l: Seq<NodeTriple>, k: Seq<char>, i: int, j: int)
    requires
        0 <= i <= j <= l.len(),
        j < l.len() ==> l[j].0 == k,
        forall|t: int| i <= t < j ==> l[t].0 != k,
    ensures
        node_index_from(l, k, i) == (if j < l.len() { Some(j) } else { None::<int> }),
    decreases j - i,
{
    if i < j {
        lemma_node_index_first(l, k, i + 1, j);
    }
}

/// Index of the first entry whose key has the characters of `k`.
fn key_index<V>(l: &Vec<(Vec<char>, V)>, k: &[char]) -> (r: Option<usize>)
    ensures
        match r {
            Some(i) => i < l@.len() && l@[i as int].0@ == k@ && forall|t: int| 0 <= t < i ==> (#[trigger] l@[t]).0@ != k@,
            None => forall|t: int| 0 <= t < l@.len() ==> (#[trigger] l@[t]).0@ != k@,
        },
{
    let mut i: usize = 0;
    while i < l.len()
        invariant
            i <= l@.len(),
            forall|t: int| 0 <= t < i ==> (#[trigger] l@[t]).0@ != k@,
        decreases l@.len() - i,
    {
        if eq(&l[i].0, k) {
            return Some(i);
        }
        i = i + 1;
    }
    None
}

fn node_index_exec(nodes: &Vec<(Vec<char>, Vec<char>, NodeShape)>, id: &[char]) -> (r: Option<usize>)
    ensures
        match r {
            Some(i) => node_index(nodes_view(nodes@), id@) == Some(i as int) && i < nodes@.len(),
            None => node_index(nodes_view(nodes@), id@) is None,
        },
{
    let ghost nv = nodes_view(nodes@);
    let mut i: usize = 0;
    while i < nodes.len()
        invariant
            i <= nodes@.len(),
            nv == nodes_view(nodes@),
            forall|t: int| 0 <= t < i ==> (#[trigger] nv[t]).0 != id@,
        decreases nodes@.len() - i,
    {
        assert(nv[i as int] == parts_view(nodes@[i as int]));
        if eq(&nodes[i].0, id) {
            proof {
                lemma_node_index_first(nv, id@, 0, i as int);
            }
            return Some(i);
        }
        i = i + 1;
    }
    proof {
        lemma_node_index_first(nv, id@, 0, nv.len() as int);
    }
    None
}

fn contains_id(ids: &Vec<Vec<char>>, id: &[char]) -> (r: bool)
    ensures
        r == ids.deep_view().contains(id@),
{
    let ghost dv = ids.deep_view();
    let mut i: usize = 0;
    while i < ids.len()
        invariant
            i <= ids@.len(),
            dv == ids.deep_view(),
            forall|t: int| 0 <= t < i ==> dv[t] != id@,
        decreases ids@.len() - i,
    {
        assert(dv[i as int] == ids@[i as int]@);
        if eq(&ids[i], id) {
            return true;
        }
        i = i + 1;
    }
    false
}

fn push_id(ids: &mut Vec<Vec<char>>, id: &[char])
    ensures
        final(ids).deep_view() == old(ids).deep_view().push(id@),
{
    let ghost before = ids.deep_view();
    let c = copy_chars(id);
    assert(c.deep_view() =~= c@);
    ids.push(c);
    assert(ids.deep_view() =~= before.push(id@));
}

fn top_push_exec(stack: &mut Vec<SubRaw>, id: &[char])
    ensures
        subs_view(final(stack)@) == top_push(subs_view(old(stack)@), id@),
{
    if stack.len() > 0 {
        let ghost sv = subs_view(stack@);
        let mut t = stack.pop().unwrap();
        let ghost popped = stack@;
        assert(sub_raw_view(t) == sv.last());
        push_id(&mut t.node_ids, id);
        stack.push(t);
        assert(subs_view(stack@) =~= subs_view(popped).push(sub_raw_view(t)));
        assert(subs_view(popped) =~= sv.drop_last());
        assert(subs_view(stack@) =~= top_push(sv, id@));
    }
}

fn top_add_exec(stack: &mut Vec<SubRaw>, id: &[char])
    ensures
        subs_view(final(stack)@) == top_add(subs_view(old(stack)@), id@),
{
    if stack.len() > 0 {
        let last = stack.len() - 1;
        let ghost sv = subs_view(stack@);
        assert(sv.last() == sub_raw_view(stack@[last as int]));
        if !contains_id(&stack[last].node_ids, id) {
            top_push_exec(stack, id);
        }
    }
}

proof fn lemma_top_len(stack: Seq<SubgraphView>, id: Seq<char>)
    ensures
        top_push(stack, id).len() == stack.len(),
        top_add(stack, id).len() == stack.len(),
{
}

fn merge_edge_node_exec(acc: &mut Acc, n: (Vec<char>, Vec<char>, NodeShape))
    ensures
        acc_view(*final(acc)) == merge_edge_node(acc_view(*old(acc)), parts_view(n)),
{
    let ghost st = acc_view(*acc);
    match node_index_exec(&acc.nodes, &n.0) {
        Some(i) => {
            assert(st.nodes[i as int] == parts_view(acc.nodes@[i as int]));
            if !eq(&n.1, &n.0) && eq(&acc.nodes[i].1, &acc.nodes[i].0) {
                top_add_exec(&mut acc.stack, &n.0);
                let ghost before = acc.nodes@;
                acc.nodes.set(i, n);
                assert(nodes_view(acc.nodes@) =~= st.nodes.update(i as int, parts_view(n)));
            }
        },
        None => {
            top_push_exec(&mut acc.stack, &n.0);
            let ghost before = acc.nodes@;
            acc.nodes.push(n);
            assert(acc.nodes@ =~= before.push(n));
            assert(nodes_view(acc.nodes@) =~= st.nodes.push(parts_view(n)));
        },
    }
}

fn merge_def_node_exec(acc: &mut Acc, n: (Vec<char>, Vec<char>, NodeShape))
    ensures
        acc_view(*final(acc)) == merge_def_node(acc_view(*old(acc)), parts_view(n)),
{
    let ghost st = acc_view(*acc);
    match node_index_exec(&acc.nodes, &n.0) {
        Some(i) => {
            assert(st.nodes[i as int] == parts_view(acc.nodes@[i as int]));
            top_add_exec(&mut acc.stack, &n.0);
            if !eq(&n.1, &n.0) && eq(&acc.nodes[i].1, &acc.nodes[i].0) {
                acc.nodes.set(i, n);
                assert(nodes_view(acc.nodes@) =~= st.nodes.update(i as int, parts_view(n)));
            }
        },
        None => {
            top_push_exec(&mut acc.stack, &n.0);
            let ghost before = acc.nodes@;
            acc.nodes.push(n);
            assert(acc.nodes@ =~= before.push(n));
            assert(nodes_view(acc.nodes@) =~= st.nodes.push(parts_view(n)));
        },
    }
}

fn close_top_exec(acc: &mut Acc)
    ensures
        acc_view(*final(acc)) == close_top(acc_view(*old(acc))),
{
    if acc.stack.len() == 0 {
        return;
    }
    let ghost st = acc_view(*acc);
    let ghost sv = subs_view(acc.stack@);
    let b = acc.stack.pop().unwrap();
    assert(sub_raw_view(b) == sv.last());
    assert(subs_view(acc.stack@) =~= sv.drop_last());
    if acc.stack.len() > 0 {
        let ghost s1 = subs_view(acc.stack@);
        let mut parent = acc.stack.pop().unwrap();
        let ghost popped = acc.stack@;
        assert(sub_raw_view(parent) == s1.last());
        push_id(&mut parent.children, &b.id);
        acc.stack.push(parent);
        assert(subs_view(acc.stack@) =~= subs_view(popped).push(sub_raw_view(parent)));
        assert(subs_view(popped) =~= s1.drop_last());
        assert(subs_view(acc.stack@) =~= s1.update(s1.len() - 1, SubgraphView { child_subgraph_ids: s1.last().child_subgraph_ids.push(sub_raw_view(b).id), ..s1.last() }));
    }
    let ghost before = acc.subgraphs@;
    acc.subgraphs.push(b);
    assert(acc.subgraphs@ =~= before.push(b));
    assert(subs_view(acc.subgraphs@) =~= st.subgraphs.push(sub_raw_view(b)));
}

// ─────────────────────────────────────────────────────────────────────────────
// Directive steps
// ─────────────────────────────────────────────────────────────────────────────

fn link_colors_ok_exec(css: &[char]) -> (r: bool)
    ensures
        r == link_colors_ok(css@),
{
    let parts = split_char(css, ',');
    let ghost pv = parts.deep_view();
    let mut i: usize = 0;
    while i < parts.len()
        invariant
            i <= parts@.len(),
            pv == parts.deep_view(),
            pv == split(css@, ','),
            forall|j: int| 0 <= j < i ==> link_color_ok(#[trigger] pv[j]),
        decreases parts@.len() - i,
    {
        assert(pv[i as int] == parts@[i as int]@);
        let ok = match prop_kv_exec(&parts[i]) {
            Some((k, v)) => {
                if eq(&k, &chars_of("stroke")) {
                    color_slicing_ok_exec(&v)
                } else {
                    true
                }
            },
            None => true,
        };
        if !ok {
            return false;
        }
        i = i + 1;
    }
    true
}

/// Whether the property list after a `skip`-character keyword holds a color
/// that byte slicing would cut (the check `classDef` and `style` lines share).
fn keyword_props_panic(line: &[char], skip: usize) -> (r: bool)
    requires
        skip <= line@.len(),
    ensures
        r == ({
            let rest = trim(line@.skip(skip as int));
            rest.len() > 0 && trim(split_first_ws(rest).0).len() > 0 && !props_colors_ok(trim(opt_or_empty(split_first_ws(rest).1)))
        }),
{
    let sk = slice_of(line, skip, line.len());
    assert(sk@ =~= line@.skip(skip as int));
    let rest = trim_of(&sk);
    if rest.len() == 0 {
        return false;
    }
    let (name, props) = split_first_ws_exec(&rest);
    if trim_of(&name).len() == 0 {
        return false;
    }
    let pr = trim_of(&opt_chars(props));
    !props_colors_ok_exec(&pr)
}

fn class_def_step(acc: &mut Acc, line: &[char]) -> (r: Result<(), ()>)
    requires
        line@.len() >= 9,
    ensures
        r is Err <==> class_def_panics(line@),
        r is Ok ==> acc_view(*final(acc)) == (match spec_class_def(line@) {
            Some((name, sty)) => PState { class_defs: assoc_put(acc_view(*old(acc)).class_defs, name, sty), ..acc_view(*old(acc)) },
            None => acc_view(*old(acc)),
        }),
{
    if keyword_props_panic(line, 9) {
        return Err(());
    }
    let ghost st = acc_view(*acc);
    match parse_class_def(line) {
        Some((name, sty)) => {
            match key_index(&acc.class_defs, &name) {
                Some(i) => {
                    proof {
                        lemma_assoc_first(st.class_defs, name@, 0, i as int);
                    }
                    let ghost nm = name@;
                    let ghost sv = style_view(sty);
                    acc.class_defs.set(i, (name, sty));
                    assert(styles_view(acc.class_defs@) =~= st.class_defs.update(i as int, (nm, sv)));
                },
                None => {
                    proof {
                        lemma_assoc_first(st.class_defs, name@, 0, st.class_defs.len() as int);
                    }
                    let ghost before = acc.class_defs@;
                    let ghost nm = name@;
                    let ghost sv = style_view(sty);
                    acc.class_defs.push((name, sty));
                    assert(styles_view(acc.class_defs@) =~= st.class_defs.push((nm, sv)));
                },
            }
        },
        None => {},
    }
    Ok(())
}

fn put_pair_exec(l: &mut Vec<(Vec<char>, Vec<char>)>, k: Vec<char>, v: Vec<char>)
    ensures
        pairs_view(final(l)@) == assoc_put(pairs_view(old(l)@), k@, v@),
{
    let ghost pv = pairs_view(l@);
    let ghost kv = k@;
    let ghost vv = v@;
    match key_index(l, &k) {
        Some(i) => {
            proof {
                lemma_assoc_first(pv, k@, 0, i as int);
            }
            l.set(i, (k, v));
            assert(pairs_view(l@) =~= pv.update(i as int, (kv, vv)));
        },
        None => {
            proof {
                lemma_assoc_first(pv, k@, 0, pv.len() as int);
            }
            l.push((k, v));
            assert(pairs_view(l@) =~= pv.push((kv, vv)));
        },
    }
}

fn class_assign_step(acc: &mut Acc, line: &[char])
    ensures
        acc_view(*final(acc)) == (PState {
            node_classes: put_pairs(acc_view(*old(acc)).node_classes, spec_class_assignment(line@), spec_class_assignment(line@).len() as int),
            ..acc_view(*old(acc))
        }),
{
    let pairs = class_assignment_pairs(line);
    let ghost pv = pairs@.map_values(|p: (Vec<char>, Vec<char>)| (p.0@, p.1@));
    let ghost l0 = acc_view(*acc).node_classes;
    let mut k: usize = 0;
    while k < pairs.len()
        invariant
            k <= pairs@.len(),
            pv == pairs@.map_values(|p: (Vec<char>, Vec<char>)| (p.0@, p.1@)),
            pv == spec_class_assignment(line@),
            pairs_view(acc.node_classes@) == put_pairs(l0, pv, k as int),
            acc_view(*acc) == (PState { node_classes: pairs_view(acc.node_classes@), ..acc_view(*old(acc)) }),
        decreases pairs@.len() - k,
    {
        assert(pv[k as int] == (pairs@[k as int].0@, pairs@[k as int].1@));
        put_pair_exec(&mut acc.node_classes, copy_chars(&pairs[k].0), copy_chars(&pairs[k].1));
        k = k + 1;
    }
}

fn copy_style(s: &NodeStyle) -> (r: NodeStyle)
    ensures
        style_view(r) == style_view(*s),
{
    NodeStyle {
        fill: s.fill,
        stroke: s.stroke,
        stroke_width: match &s.stroke_width {
            Some(w) => Some(w.clone()),
            None => None,
        },
        color: s.color,
    }
}

fn style_step(acc: &mut Acc, line: &[char]) -> (r: Result<(), ()>)
    requires
        line@.len() >= 6,
    ensures
        r is Err <==> style_directive_panics(line@),
        r is Ok ==> acc_view(*final(acc)) == (match spec_style_directive(line@) {
            Some((id, patch)) => PState { node_styles: style_put(acc_view(*old(acc)).node_styles, id, patch), ..acc_view(*old(acc)) },
            None => acc_view(*old(acc)),
        }),
{
    if keyword_props_panic(line, 6) {
        return Err(());
    }
    let ghost st = acc_view(*acc);
    match parse_style_directive(line) {
        Some((id, patch)) => {
            let ghost iv = id@;
            let ghost pv = style_view(patch);
            match key_index(&acc.node_styles, &id) {
                Some(i) => {
                    proof {
                        lemma_assoc_first(st.node_styles, id@, 0, i as int);
                    }
                    let mut merged = copy_style(&acc.node_styles[i].1);
                    merged.apply_overlay(&patch);
                    let ghost mv = style_view(merged);
                    acc.node_styles.set(i, (id, merged));
                    assert(styles_view(acc.node_styles@) =~= st.node_styles.update(i as int, (iv, mv)));
                },
                None => {
                    proof {
                        lemma_assoc_first(st.node_styles, id@, 0, st.node_styles.len() as int);
                    }
                    acc.node_styles.push((id, patch));
                    assert(styles_view(acc.node_styles@) =~= st.node_styles.push((iv, pv)));
                },
            }
        },
        None => {},
    }
    Ok(())
}

fn link_index_exec(l: &Vec<(usize, LinkStyle)>, k: usize) -> (r: Option<usize>)
    ensures
        match r {
            Some(i) => assoc_index(links_view(l@), k, 0) == Some(i as int) && i < l@.len(),
            None => assoc_index(links_view(l@), k, 0) is None,
        },
{
    let ghost lv = links_view(l@);
    let mut i: usize = 0;
    while i < l.len()
        invariant
            i <= l@.len(),
            lv == links_view(l@),
            forall|t: int| 0 <= t < i ==> (#[trigger] lv[t]).0 != k,
        decreases l@.len() - i,
    {
        assert(lv[i as int].0 == l@[i as int].0);
        if l[i].0 == k {
            proof {
                lemma_assoc_first(lv, k, 0, i as int);
            }
            return Some(i);
        }
        i = i + 1;
    }
    proof {
        lemma_assoc_first(lv, k, 0, lv.len() as int);
    }
    None
}

fn link_style_step_exec(acc: &mut Acc, line: &[char]) -> (r: Result<(), ()>)
    ensures
        r is Err <==> link_style_panics(line@),
        r is Ok ==> acc_view(*final(acc)) == link_style_step(acc_view(*old(acc)), line@),
{
    if line.len() > 10 {
        let sk = slice_of(line, 10, line.len());
        assert(sk@ =~= line@.skip(10));
        let content = trim_of(&sk);
        let e = crate::text::word_end_exec(&content, 0);
        if e < content.len() {
            let tail = slice_of(&content, e, content.len());
            assert(tail@ =~= content@.skip(e as int));
            let css = trim_of(&tail);
            if !link_colors_ok_exec(&css) {
                return Err(());
            }
        }
    }
    let ghost st = acc_view(*acc);
    match parse_link_style(line) {
        Some((idx, sty)) => {
            if eq(&to_lower(&idx), &chars_of("default")) {
                acc.default_link_style = Some(sty);
            } else {
                match parse_unsigned_exec(&idx, 10, usize::MAX as u64) {
                    Some(n) => {
                        let n = n as usize;
                        let ghost lv = link_view(sty);
                        match link_index_exec(&acc.link_styles, n) {
                            Some(i) => {
                                acc.link_styles.set(i, (n, sty));
                                assert(links_view(acc.link_styles@) =~= st.link_styles.update(i as int, (n, lv)));
                            },
                            None => {
                                acc.link_styles.push((n, sty));
                                assert(links_view(acc.link_styles@) =~= st.link_styles.push((n, lv)));
                            },
                        }
                    },
                    None => {},
                }
            }
        },
        None => {},
    }
    Ok(())
}

// ─────────────────────────────────────────────────────────────────────────────
// One body line
// ─────────────────────────────────────────────────────────────────────────────

proof fn lemma_merge_edge_nodes_stack(st: PState, ns: Seq<NodeTriple>, k: int)
    ensures
        merge_edge_nodes(st, ns, k).stack.len() == st.stack.len(),
    decreases k,
{
    if k > 0 && k <= ns.len() {
        lemma_merge_edge_nodes_stack(st, ns, k - 1);
        let s1 = merge_edge_nodes(st, ns, k - 1);
        lemma_top_len(s1.stack, ns[k - 1].0);
    }
}

proof fn lemma_body_step_depth(st: PState, raw: Seq<char>)
    ensures
        body_step(st, raw).stack.len() == depth_after(raw, st.stack.len()),
{
    reveal(body_step);
    let line = trim(raw);
    match spec_edge_line(line) {
        Some((ns, es)) => {
            lemma_merge_edge_nodes_stack(st, ns, ns.len() as int);
        },
        None => match spec_node_from_text(line) {
            Some(n) => {
                lemma_top_len(st.stack, n.0);
            },
            None => {},
        },
    }
}

fn merge_edge_line_exec(acc: &mut Acc, ns: Vec<(Vec<char>, Vec<char>, NodeShape)>, es: Vec<EdgeRaw>)
    ensures
        acc_view(*final(acc)) == ({
            let st2 = merge_edge_nodes(acc_view(*old(acc)), nodes_view(ns@), ns@.len() as int);
            PState { edges: st2.edges + edges_raw_view(es@), ..st2 }
        }),
        final(acc).counter == old(acc).counter,
{
    let ghost st0 = acc_view(*acc);
    let ghost nv = nodes_view(ns@);
    let mut ns = ns;
    let mut rev: Vec<(Vec<char>, Vec<char>, NodeShape)> = Vec::new();
    while ns.len() > 0
        invariant
            nv.len() == ns@.len() + rev@.len(),
            forall|i: int| 0 <= i < ns@.len() ==> parts_view(#[trigger] ns@[i]) == nv[i],
            forall|i: int| 0 <= i < rev@.len() ==> parts_view(#[trigger] rev@[i]) == nv[nv.len() - 1 - i],
        decreases ns@.len(),
    {
        let x = ns.pop().unwrap();
        rev.push(x);
    }
    let mut k: usize = 0;
    let total = rev.len();
    while rev.len() > 0
        invariant
            nv.len() == total,
            k + rev@.len() == total,
            forall|i: int| 0 <= i < rev@.len() ==> parts_view(#[trigger] rev@[i]) == nv[total - 1 - i],
            acc_view(*acc) == merge_edge_nodes(st0, nv, k as int),
            acc.counter == old(acc).counter,
        decreases rev@.len(),
    {
        let x = rev.pop().unwrap();
        assert(parts_view(x) == nv[k as int]);
        merge_edge_node_exec(acc, x);
        k = k + 1;
    }
    let ghost st2 = acc_view(*acc);
    let ghost ev = edges_raw_view(es@);
    let mut j: usize = 0;
    let mut es = es;
    let mut erev: Vec<EdgeRaw> = Vec::new();
    while es.len() > 0
        invariant
            ev.len() == es@.len() + erev@.len(),
            forall|i: int| 0 <= i < es@.len() ==> edge_raw_view(#[trigger] es@[i]) == ev[i],
            forall|i: int| 0 <= i < erev@.len() ==> edge_raw_view(#[trigger] erev@[i]) == ev[ev.len() - 1 - i],
        decreases es@.len(),
    {
        let x = es.pop().unwrap();
        erev.push(x);
    }
    let etotal = erev.len();
    while erev.len() > 0
        invariant
            ev.len() == etotal,
            j + erev@.len() == etotal,
            forall|i: int| 0 <= i < erev@.len() ==> edge_raw_view(#[trigger] erev@[i]) == ev[etotal - 1 - i],
            acc_view(*acc) == (PState { edges: st2.edges + ev.take(j as int), ..st2 }),
            acc.counter == old(acc).counter,
        decreases erev@.len(),
    {
        let x = erev.pop().unwrap();
        assert(edge_raw_view(x) == ev[j as int]);
        let ghost before = acc.edges@;
        acc.edges.push(x);
        assert(acc.edges@ =~= before.push(x));
        assert(st2.edges + ev.take(j + 1) =~= (st2.edges + ev.take(j as int)).push(ev[j as int]));
        assert(edges_raw_view(acc.edges@) =~= edges_raw_view(before).push(edge_raw_view(x)));
        j = j + 1;
    }
    assert(ev.take(ev.len() as int) =~= ev);
}

/// One body line: `Err(())` where the line panics.
#[verifier::rlimit(80)]
fn body_step_exec(acc: &mut Acc, raw: &[char]) -> (r: Result<(), ()>)
    requires
        old(acc).counter < usize::MAX,
    ensures
        r is Err <==> body_line_panics(raw@, old(acc).stack@.len() as nat),
        r is Ok ==> acc_view(*final(acc)) == body_step(acc_view(*old(acc)), raw@),
        r is Ok ==> final(acc).counter <= old(acc).counter + 1,
{
    proof {
        reveal(body_step);
        reveal(body_line_panics);
        reveal_strlit("%%");
        reveal_strlit("classdef ");
        reveal_strlit("class ");
        reveal_strlit("linkstyle ");
        reveal_strlit("style ");
        reveal_strlit("click ");
    }
    let ghost st = acc_view(*acc);
    let line = trim_of(raw);
    let ll = to_lower(&line);
    if line.len() == 0 || starts_with_exec(&line, &chars_of("%%")) {
        return Ok(());
    }
    if starts_with_exec(&ll, &chars_of("classdef ")) {
        return class_def_step(acc, &line);
    }
    if starts_with_exec(&ll, &chars_of("class ")) {
        class_assign_step(acc, &line);
        return Ok(());
    }
    let lk = to_fold(&line);
    if starts_with_exec(&lk, &chars_of("linkstyle ")) {
        if starts_with_exec(&ll, &chars_of("linkstyle ")) {
            return link_style_step_exec(acc, &line);
        }
        assert(lk@.len() == line@.len());
        let rest = slice_of(&line, 10, line.len());
        assert(rest@ =~= line@.skip(10));
        let css = trim_of(&rest);
        if !link_colors_ok_exec(&css) {
            return Err(());
        }
        return Ok(());
    }
    if starts_with_exec(&ll, &chars_of("style ")) {
        return style_step(acc, &line);
    }
    if starts_with_exec(&lk, &chars_of("click ")) {
        return Ok(());
    }
    if starts_with_exec(&ll, &chars_of("subgraph")) {
        match parse_subgraph_header(&line, acc.counter) {
            Err(()) => {
                return Err(());
            },
            Ok((id, title, c)) => {
                let b = SubRaw { id, title, node_ids: Vec::new(), children: Vec::new(), direction: None };
                assert(b.node_ids.deep_view() =~= Seq::<Seq<char>>::empty());
                assert(b.children.deep_view() =~= Seq::<Seq<char>>::empty());
                let ghost before = acc.stack@;
                acc.stack.push(b);
                assert(acc.stack@ =~= before.push(b));
                assert(subs_view(acc.stack@) =~= st.stack.push(sub_raw_view(b)));
                acc.counter = c;
                return Ok(());
            },
        }
    }
    if eq(&ll, &chars_of("end")) {
        close_top_exec(acc);
        return Ok(());
    }
    if acc.stack.len() > 0 && starts_with_exec(&ll, &chars_of("direction")) {
        let d = parse_direction(&ll);
        let ghost sv = subs_view(acc.stack@);
        let mut t = acc.stack.pop().unwrap();
        let ghost popped = acc.stack@;
        assert(sub_raw_view(t) == sv.last());
        t.direction = Some(d);
        acc.stack.push(t);
        assert(subs_view(acc.stack@) =~= subs_view(popped).push(sub_raw_view(t)));
        assert(subs_view(popped) =~= sv.drop_last());
        assert(subs_view(acc.stack@) =~= sv.update(sv.len() - 1, SubgraphView { direction: Some(spec_parse_direction(ll@)), ..sv.last() }));
        return Ok(());
    }
    match parse_edge_line_full(&line) {
        Err(()) => {
            return Err(());
        },
        Ok(Some((ns, es))) => {
            proof {
                lemma_edge_line_named(line@);
            }
            merge_edge_line_exec(acc, ns, es);
            return Ok(());
        },
        Ok(None) => {
            proof {
                lemma_edge_line_named(line@);
            }
            match parse_node_from_text(&line) {
                Err(()) => {
                    return Err(());
                },
                Ok(Some(n)) => {
                    merge_def_node_exec(acc, n);
                    return Ok(());
                },
                Ok(None) => {
                    return Ok(());
                },
            }
        },
    }
}

// ─────────────────────────────────────────────────────────────────────────────
// Header, hints and the whole chart
// ─────────────────────────────────────────────────────────────────────────────

fn header_scan_exec(lines: &Vec<Vec<char>>) -> (r: Result<(FlowDirection, usize), Vec<char>>)
    ensures
        match r {
            Ok((d, start)) => header_scan(lines.deep_view(), 0) == Ok::<(FlowDirection, int), Seq<char>>((d, start as int)) && start <= lines@.len(),
            Err(m) => header_scan(lines.deep_view(), 0) == Err::<(FlowDirection, int), Seq<char>>(m@),
        },
{
    proof {
        reveal_strlit("%%");
    }
    let ghost lv = lines.deep_view();
    let mut i: usize = 0;
    while i < lines.len()
        invariant
            i <= lines@.len(),
            lv == lines.deep_view(),
            header_scan(lv, i as int) == header_scan(lv, 0),
        decreases lines@.len() - i,
    {
        assert(lv[i as int] == lines@[i as int]@);
        let h = trim_of(&lines[i]);
        if !(h.len() == 0 || starts_with_exec(&h, &chars_of("%%"))) {
            let hl = to_lower(&h);
            if starts_with_exec(&hl, &chars_of("flowchart")) || starts_with_exec(&hl, &chars_of("graph")) {
                return Ok((parse_direction(&hl), i + 1));
            } else {
                return Err(chars_of("Expected 'flowchart' or 'graph' declaration"));
            }
        }
        i = i + 1;
    }
    Err(chars_of("Empty flowchart source"))
}

pub open spec fn hints_view(v: Seq<(Vec<char>, Vec<char>, Vec<char>)>) -> Seq<HintView> {
    v.map_values(|h: (Vec<char>, Vec<char>, Vec<char>)| HintView { node_id: h.0@, x: h.1@, y: h.2@ })
}

pub open spec fn warns_view(v: Seq<(usize, Vec<char>)>) -> Seq<WarnView> {
    v.map_values(|w: (usize, Vec<char>)| WarnView { line: w.0 as nat, message: w.1@ })
}

fn hint_seen_exec(hs: &Vec<(Vec<char>, Vec<char>, Vec<char>)>, id: &[char]) -> (r: bool)
    ensures
        r == hint_seen(hints_view(hs@), id@),
{
    let ghost hv = hints_view(hs@);
    let mut i: usize = 0;
    while i < hs.len()
        invariant
            i <= hs@.len(),
            hv == hints_view(hs@),
            forall|t: int| 0 <= t < i ==> (#[trigger] hv[t]).node_id != id@,
        decreases hs@.len() - i,
    {
        assert(hv[i as int].node_id == hs@[i as int].0@);
        if eq(&hs[i].0, id) {
            return true;
        }
        i = i + 1;
    }
    false
}

fn message_with_id(head: &str, id: &[char], tail: &str) -> (r: Vec<char>)
    ensures
        r@ == head@ + id@ + tail@,
{
    let mut r = chars_of(head);
    append(&mut r, id);
    append(&mut r, &chars_of(tail));
    r
}

fn collect_position_hints(
    lines: &Vec<Vec<char>>,
    nodes: &Vec<(Vec<char>, Vec<char>, NodeShape)>,
) -> (r: (Vec<(Vec<char>, Vec<char>, Vec<char>)>, Vec<(usize, Vec<char>)>))
    ensures
        (hints_view(r.0@), warns_view(r.1@)) == hints_upto(lines.deep_view(), lines.deep_view().len() as int, nodes_view(nodes@)),
{
    let ghost lv = lines.deep_view();
    let ghost nv = nodes_view(nodes@);
    let mut hs: Vec<(Vec<char>, Vec<char>, Vec<char>)> = Vec::new();
    let mut ws: Vec<(usize, Vec<char>)> = Vec::new();
    let mut i: usize = 0;
    while i < lines.len()
        invariant
            i <= lines@.len(),
            lv == lines.deep_view(),
            nv == nodes_view(nodes@),
            (hints_view(hs@), warns_view(ws@)) == hints_upto(lv, i as int, nv),
        decreases lines@.len() - i,
    {
        assert(lv[i as int] == lines@[i as int]@);
        let no = i + 1;
        let ghost hb = hs@;
        let ghost wb = ws@;
        match parse_pos_hint_line(&lines[i]) {
            HintOut::NotHint => {},
            HintOut::Malformed(m) => {
                let ghost mv = m@;
                ws.push((no, m));
                assert(warns_view(ws@) =~= warns_view(wb).push(WarnView { line: no as nat, message: mv }));
            },
            HintOut::Parsed(id, x, y) => {
                if !node_seen_exec(nodes, &id) {
                    let m = message_with_id("Unknown node id '", &id, "' in @pos hint");
                    let ghost mv = m@;
                    ws.push((no, m));
                    assert(warns_view(ws@) =~= warns_view(wb).push(WarnView { line: no as nat, message: mv }));
                } else if hint_seen_exec(&hs, &id) {
                    let m = message_with_id("Duplicate @pos hint for node '", &id, "'");
                    let ghost mv = m@;
                    ws.push((no, m));
                    assert(warns_view(ws@) =~= warns_view(wb).push(WarnView { line: no as nat, message: mv }));
                } else {
                    let ghost h = HintView { node_id: id@, x: x@, y: y@ };
                    hs.push((id, x, y));
                    assert(hints_view(hs@) =~= hints_view(hb).push(h));
                }
            },
        }
        i = i + 1;
    }
    (hs, ws)
}

fn strings_of(v: &Vec<Vec<char>>) -> (r: Vec<String>)
    ensures
        strs_view(r@) == v.deep_view(),
{
    let ghost dv = v.deep_view();
    let mut r: Vec<String> = Vec::new();
    let mut i: usize = 0;
    while i < v.len()
        invariant
            i <= v@.len(),
            dv == v.deep_view(),
            strs_view(r@) == dv.take(i as int),
        decreases v@.len() - i,
    {
        assert(dv[i as int] == v@[i as int]@);
        let ghost before = r@;
        let s = string_of(&v[i]);
        r.push(s);
        assert(r@ =~= before.push(s));
        assert(dv.take(i + 1) =~= dv.take(i as int).push(dv[i as int]));
        assert(strs_view(r@) =~= strs_view(before).push(s@));
        assert(strs_view(r@) =~= dv.take(i + 1));
        i = i + 1;
    }
    assert(dv.take(dv.len() as int) =~= dv);
    r
}

fn to_flow_nodes(v: &Vec<(Vec<char>, Vec<char>, NodeShape)>) -> (r: Vec<FlowNode>)
    ensures
        r@.map_values(|n: FlowNode| node_view(n)) == nodes_view(v@).map_values(|t: NodeTriple| triple_node(t)),
{
    let ghost target = nodes_view(v@).map_values(|t: NodeTriple| triple_node(t));
    let mut r: Vec<FlowNode> = Vec::new();
    let mut i: usize = 0;
    while i < v.len()
        invariant
            i <= v@.len(),
            target == nodes_view(v@).map_values(|t: NodeTriple| triple_node(t)),
            r@.map_values(|n: FlowNode| node_view(n)) == target.take(i as int),
        decreases v@.len() - i,
    {
        let n = FlowNode { id: string_of(&v[i].0), label: string_of(&v[i].1), shape: v[i].2 };
        let ghost before = r@;
        r.push(n);
        assert(r@ =~= before.push(n));
        assert(node_view(n) == target[i as int]);
        assert(target.take(i + 1) =~= target.take(i as int).push(target[i as int]));
        assert(r@.map_values(|n: FlowNode| node_view(n)) =~= before.map_values(|n: FlowNode| node_view(n)).push(target[i as int]));
        assert(r@.map_values(|n: FlowNode| node_view(n)) =~= target.take(i + 1));
        i = i + 1;
    }
    assert(target.take(target.len() as int) =~= target);
    r
}

fn to_flow_edges(v: &Vec<EdgeRaw>) -> (r: Vec<FlowEdge>)
    ensures
        r@.map_values(|e: FlowEdge| edge_view(e)) == edges_raw_view(v@),
{
    let ghost target = edges_raw_view(v@);
    let mut r: Vec<FlowEdge> = Vec::new();
    let mut i: usize = 0;
    while i < v.len()
        invariant
            i <= v@.len(),
            target == edges_raw_view(v@),
            r@.map_values(|e: FlowEdge| edge_view(e)) == target.take(i as int),
        decreases v@.len() - i,
    {
        let e = &v[i];
        let fe = FlowEdge {
            from: string_of(&e.from),
            to: string_of(&e.to),
            label: opt_chars_string(copy_opt(&e.label)),
            style: e.style,
            arrow_start: e.arrow_start,
            arrow_end: e.arrow_end,
        };
        let ghost before = r@;
        r.push(fe);
        assert(r@ =~= before.push(fe));
        assert(edge_view(fe) == target[i as int]);
        assert(target.take(i + 1) =~= target.take(i as int).push(target[i as int]));
        assert(r@.map_values(|e: FlowEdge| edge_view(e)) =~= before.map_values(|e: FlowEdge| edge_view(e)).push(target[i as int]));
        assert(r@.map_values(|e: FlowEdge| edge_view(e)) =~= target.take(i + 1));
        i = i + 1;
    }
    assert(target.take(target.len() as int) =~= target);
    r
}

fn to_flow_subgraphs(v: &Vec<SubRaw>) -> (r: Vec<FlowSubgraph>)
    ensures
        r@.map_values(|s: FlowSubgraph| subgraph_view(s)) == subs_view(v@),
{
    let ghost target = subs_view(v@);
    let mut r: Vec<FlowSubgraph> = Vec::new();
    let mut i: usize = 0;
    while i < v.len()
        invariant
            i <= v@.len(),
            target == subs_view(v@),
            r@.map_values(|s: FlowSubgraph| subgraph_view(s)) == target.take(i as int),
        decreases v@.len() - i,
    {
        let b = &v[i];
        let fs = FlowSubgraph {
            id: string_of(&b.id),
            title: opt_chars_string(copy_opt(&b.title)),
            node_ids: strings_of(&b.node_ids),
            child_subgraph_ids: strings_of(&b.children),
            direction: b.direction,
        };
        let ghost before = r@;
        r.push(fs);
        assert(r@ =~= before.push(fs));
        assert(subgraph_view(fs) == target[i as int]);
        assert(target.take(i + 1) =~= target.take(i as int).push(target[i as int]));
        assert(r@.map_values(|s: FlowSubgraph| subgraph_view(s)) =~= before.map_values(|s: FlowSubgraph| subgraph_view(s)).push(target[i as int]));
        assert(r@.map_values(|s: FlowSubgraph| subgraph_view(s)) =~= target.take(i + 1));
        i = i + 1;
    }
    assert(target.take(target.len() as int) =~= target);
    r
}

fn to_style_pairs(v: &Vec<(Vec<char>, NodeStyle)>) -> (r: Vec<(String, NodeStyle)>)
    ensures
        r@.map_values(|p: (String, NodeStyle)| (p.0@, style_view(p.1))) == styles_view(v@),
{
    let ghost target = styles_view(v@);
    let mut r: Vec<(String, NodeStyle)> = Vec::new();
    let mut i: usize = 0;
    while i < v.len()
        invariant
            i <= v@.len(),
            target == styles_view(v@),
            r@.map_values(|p: (String, NodeStyle)| (p.0@, style_view(p.1))) == target.take(i as int),
        decreases v@.len() - i,
    {
        let p = (string_of(&v[i].0), copy_style(&v[i].1));
        let ghost before = r@;
        let ghost pv = (p.0@, style_view(p.1));
        assert(pv == target[i as int]);
        r.push(p);
        assert(r@ =~= before.push(p));
        assert(pv == target[i as int]);
        assert(target.take(i + 1) =~= target.take(i as int).push(target[i as int]));
        assert(r@.map_values(|p: (String, NodeStyle)| (p.0@, style_view(p.1))) =~= before.map_values(|p: (String, NodeStyle)| (p.0@, style_view(p.1))).push(target[i as int]));
        assert(r@.map_values(|p: (String, NodeStyle)| (p.0@, style_view(p.1))) =~= target.take(i + 1));
        i = i + 1;
    }
    assert(target.take(target.len() as int) =~= target);
    r
}

fn to_string_pairs(v: &Vec<(Vec<char>, Vec<char>)>) -> (r: Vec<(String, String)>)
    ensures
        r@.map_values(|p: (String, String)| (p.0@, p.1@)) == pairs_view(v@),
{
    let ghost target = pairs_view(v@);
    let mut r: Vec<(String, String)> = Vec::new();
    let mut i: usize = 0;
    while i < v.len()
        invariant
            i <= v@.len(),
            target == pairs_view(v@),
            r@.map_values(|p: (String, String)| (p.0@, p.1@)) == target.take(i as int),
        decreases v@.len() - i,
    {
        let p = (string_of(&v[i].0), string_of(&v[i].1));
        assert((p.0@, p.1@) == target[i as int]);
        let ghost before = r@;
        r.push(p);
        assert(r@ =~= before.push(p));
        assert(target.take(i + 1) =~= target.take(i as int).push(target[i as int]));
        assert(r@.map_values(|p: (String, String)| (p.0@, p.1@)) =~= before.map_values(|p: (String, String)| (p.0@, p.1@)).push(target[i as int]));
        assert(r@.map_values(|p: (String, String)| (p.0@, p.1@)) =~= target.take(i + 1));
        i = i + 1;
    }
    assert(target.take(target.len() as int) =~= target);
    r
}

fn to_position_hints(v: &Vec<(Vec<char>, Vec<char>, Vec<char>)>) -> (r: Vec<PositionHint>)
    ensures
        r@.map_values(|h: PositionHint| HintView { node_id: h.node_id@, x: h.x@, y: h.y@ }) == hints_view(v@),
{
    let ghost target = hints_view(v@);
    let mut r: Vec<PositionHint> = Vec::new();
    let mut i: usize = 0;
    while i < v.len()
        invariant
            i <= v@.len(),
            target == hints_view(v@),
            r@.map_values(|h: PositionHint| HintView { node_id: h.node_id@, x: h.x@, y: h.y@ }) == target.take(i as int),
        decreases v@.len() - i,
    {
        let h = PositionHint { node_id: string_of(&v[i].0), x: string_of(&v[i].1), y: string_of(&v[i].2) };
        assert(HintView { node_id: h.node_id@, x: h.x@, y: h.y@ } == target[i as int]);
        let ghost before = r@;
        r.push(h);
        assert(r@ =~= before.push(h));
        assert(target.take(i + 1) =~= target.take(i as int).push(target[i as int]));
        assert(r@.map_values(|h: PositionHint| HintView { node_id: h.node_id@, x: h.x@, y: h.y@ }) =~= before.map_values(|h: PositionHint| HintView { node_id: h.node_id@, x: h.x@, y: h.y@ }).push(target[i as int]));
        assert(r@.map_values(|h: PositionHint| HintView { node_id: h.node_id@, x: h.x@, y: h.y@ }) =~= target.take(i + 1));
        i = i + 1;
    }
    assert(target.take(target.len() as int) =~= target);
    r
}

fn to_warnings(v: &Vec<(usize, Vec<char>)>) -> (r: Vec<FlowchartWarning>)
    ensures
        r@.map_values(|w: FlowchartWarning| WarnView { line: w.line as nat, message: w.message@ }) == warns_view(v@),
{
    let ghost target = warns_view(v@);
    let mut r: Vec<FlowchartWarning> = Vec::new();
    let mut i: usize = 0;
    while i < v.len()
        invariant
            i <= v@.len(),
            target == warns_view(v@),
            r@.map_values(|w: FlowchartWarning| WarnView { line: w.line as nat, message: w.message@ }) == target.take(i as int),
        decreases v@.len() - i,
    {
        let w = FlowchartWarning { line: v[i].0, message: string_of(&v[i].1) };
        assert(WarnView { line: w.line as nat, message: w.message@ } == target[i as int]);
        let ghost before = r@;
        r.push(w);
        assert(r@ =~= before.push(w));
        assert(target.take(i + 1) =~= target.take(i as int).push(target[i as int]));
        assert(r@.map_values(|w: FlowchartWarning| WarnView { line: w.line as nat, message: w.message@ }) =~= before.map_values(|w: FlowchartWarning| WarnView { line: w.line as nat, message: w.message@ }).push(target[i as int]));
        assert(r@.map_values(|w: FlowchartWarning| WarnView { line: w.line as nat, message: w.message@ }) =~= target.take(i + 1));
        i = i + 1;
    }
    assert(target.take(target.len() as int) =~= target);
    r
}

proof fn lemma_panics_persist(lines: Seq<Seq<char>>, start: int, k: int, j: int)
    requires
        start <= k <= j <= lines.len(),
        body_panics_upto(lines, start, k).0,
    ensures
        body_panics_upto(lines, start, j).0,
    decreases j - k,
{
    if k < j {
        lemma_panics_persist(lines, start, k, j - 1);
    }
}

fn empty_acc() -> (r: Acc)
    ensures
        acc_view(r) == empty_pstate(),
        r.stack@.len() == 0,
        r.counter == 0,
{
    let r = Acc {
        nodes: Vec::new(),
        edges: Vec::new(),
        subgraphs: Vec::new(),
        stack: Vec::new(),
        counter: 0,
        class_defs: Vec::new(),
        node_classes: Vec::new(),
        node_styles: Vec::new(),
        link_styles: Vec::new(),
        default_link_style: None,
    };
    assert(nodes_view(r.nodes@) =~= seq![]);
    assert(edges_raw_view(r.edges@) =~= seq![]);
    assert(subs_view(r.subgraphs@) =~= seq![]);
    assert(subs_view(r.stack@) =~= seq![]);
    assert(styles_view(r.class_defs@) =~= seq![]);
    assert(pairs_view(r.node_classes@) =~= seq![]);
    assert(styles_view(r.node_styles@) =~= seq![]);
    assert(links_view(r.link_styles@) =~= seq![]);
    r
}

/// The body lines from `start` on; `None` where one of them panics.
fn run_body_exec(ls: &Vec<Vec<char>>, start: usize) -> (r: Option<Acc>)
    requires
        start <= ls@.len(),
    ensures
        r is None <==> body_panics_upto(ls.deep_view(), start as int, ls.deep_view().len() as int).0,
        r matches Some(acc) ==> acc_view(acc) == run_body(ls.deep_view(), start as int, ls.deep_view().len() as int),
{
    let ghost lv = ls.deep_view();
    let mut acc = empty_acc();
    let mut k = start;
    while k < ls.len()
        invariant
            start <= k <= ls@.len(),
            lv == ls.deep_view(),
            acc_view(acc) == run_body(lv, start as int, k as int),
            acc.stack@.len() == body_panics_upto(lv, start as int, k as int).1,
            !body_panics_upto(lv, start as int, k as int).0,
            acc.counter <= k - start,
        decreases ls@.len() - k,
    {
        assert(lv[k as int] == ls@[k as int]@);
        let ghost before = acc_view(acc);
        let ghost d = body_panics_upto(lv, start as int, k as int).1;
        assert(body_panics_upto(lv, start as int, k + 1) == (body_line_panics(lv[k as int], d), depth_after(lv[k as int], d)));
        assert(run_body(lv, start as int, k + 1) == body_step(before, lv[k as int]));
        match body_step_exec(&mut acc, &ls[k]) {
            Err(()) => {
                proof {
                    lemma_panics_persist(lv, start as int, k + 1, lv.len() as int);
                }
                return None;
            },
            Ok(()) => {
                proof {
                    lemma_body_step_depth(before, lv[k as int]);
                }
            },
        }
        k = k + 1;
    }
    Some(acc)
}

/// Parses Mermaid flowchart source; `None` where parsing would panic (see
/// [`flowchart_panics`]).
pub fn try_parse_flowchart(source: &str) -> (r: Option<Result<Flowchart, String>>)
    ensures
        r is None <==> flowchart_panics(source@),
        r matches Some(res) ==> match res {
            Ok(f) => spec_parse_flowchart(source@) == Ok::<ChartView, Seq<char>>(chart_view(f)),
            Err(e) => spec_parse_flowchart(source@) == Err::<ChartView, Seq<char>>(e@),
        },
{
    let src = chars_of(source);
    let ls = lines_of(&src);
    let ghost lv = ls.deep_view();
    let (dir, start) = match header_scan_exec(&ls) {
        Err(msg) => {
            return Some(Err(string_of(&msg)));
        },
        Ok(x) => x,
    };
    let mut acc = match run_body_exec(&ls, start) {
        Some(a) => a,
        None => {
            return None;
        },
    };
    let ghost body_state = acc_view(acc);
    while acc.stack.len() > 0
        invariant
            close_all(acc_view(acc)) == close_all(body_state),
        decreases acc.stack@.len(),
    {
        close_top_exec(&mut acc);
    }
    let (hs, ws) = collect_position_hints(&ls, &acc.nodes);
    let f = Flowchart {
        direction: dir,
        nodes: to_flow_nodes(&acc.nodes),
        edges: to_flow_edges(&acc.edges),
        subgraphs: to_flow_subgraphs(&acc.subgraphs),
        class_defs: to_style_pairs(&acc.class_defs),
        node_classes: to_string_pairs(&acc.node_classes),
        node_styles: to_style_pairs(&acc.node_styles),
        link_styles: acc.link_styles,
        default_link_style: acc.default_link_style,
        position_hints: to_position_hints(&hs),
        warnings: to_warnings(&ws),
    };
    assert(chart_view(f) =~= match spec_parse_flowchart(source@) {
        Ok(c) => c,
        Err(_) => chart_view(f),
    });
    Some(Ok(f))
}

/// Parses Mermaid flowchart source into a [`Flowchart`]: `Err` with
/// "Empty flowchart source" when no line but comments and blank ones, with
/// "Expected 'flowchart' or 'graph' declaration" when the first other line is
/// no header.
pub fn parse_flowchart(source: &str) -> (r: Result<Flowchart, String>)
    requires
        !flowchart_panics(source@),
    ensures
        match r {
            Ok(f) => spec_parse_flowchart(source@) == Ok::<ChartView, Seq<char>>(chart_view(f)),
            Err(e) => spec_parse_flowchart(source@) == Err::<ChartView, Seq<char>>(e@),
        },
{
    match try_parse_flowchart(source) {
        Some(r) => r,
        None => {
            proof {
                assert(false);
            }
            Err(String::new())
        },
    }
}

// ─────────────────────────────────────────────────────────────────────────────
// What every chart keeps
// ─────────────────────────────────────────────────────────────────────────────

/// Some node of the chart has id `id`.
pub open spec fn chart_has_node(c: ChartView, id: Seq<char>) -> bool {
    exists|a: int| 0 <= a < c.nodes.len() && (#[trigger] c.nodes[a]).id == id
}

/// Every id in `ids` names a node of `ns`.
pub open spec fn all_seen(ns: Seq<NodeTriple>, ids: Seq<Seq<char>>) -> bool {
    forall|i: int| 0 <= i < ids.len() ==> node_seen(ns, #[trigger] ids[i])
}

/// Both ends of every edge of `es` name nodes of `ns`.
pub open spec fn edges_join(ns: Seq<NodeTriple>, es: Seq<EdgeView>) -> bool {
    forall|i: int| 0 <= i < es.len() ==> node_seen(ns, (#[trigger] es[i]).from) && node_seen(ns, es[i].to)
}

/// No two nodes of `ns` share an id.
pub open spec fn ids_distinct(ns: Seq<NodeTriple>) -> bool {
    forall|i: int, j: int| 0 <= i < j < ns.len() ==> (#[trigger] ns[i]).0 != (#[trigger] ns[j]).0
}

/// Every node id of `a` is one of `b`.
pub open spec fn seen_within(a: Seq<NodeTriple>, b: Seq<NodeTriple>) -> bool {
    forall|id: Seq<char>| #![trigger node_seen(a, id)] #![trigger node_seen(b, id)] node_seen(a, id) ==> node_seen(b, id)
}

proof fn lemma_node_index_from_props(ns: Seq<NodeTriple>, id: Seq<char>, i: int)
    requires
        0 <= i,
    ensures
        node_index_from(ns, id, i) matches Some(k) ==> i <= k < ns.len() && ns[k].0 == id,
        node_index_from(ns, id, i) is None ==> forall|t: int| i <= t < ns.len() ==> (#[trigger] ns[t]).0 != id,
    decreases ns.len() - i,
{
    if i < ns.len() && ns[i].0 != id {
        lemma_node_index_from_props(ns, id, i + 1);
    }
}

proof fn lemma_seen_push(ns: Seq<NodeTriple>, n: NodeTriple)
    ensures
        seen_within(ns, ns.push(n)),
        node_seen(ns.push(n), n.0),
{
    assert forall|id: Seq<char>| node_seen(ns, id) implies node_seen(ns.push(n), id) by {
        let i = choose|i: int| 0 <= i < ns.len() && (#[trigger] ns[i]).0 == id;
        assert(ns.push(n)[i] == ns[i]);
    }
    assert(ns.push(n)[ns.len() as int] == n);
}

proof fn lemma_seen_update(ns: Seq<NodeTriple>, i: int, n: NodeTriple)
    requires
        0 <= i < ns.len(),
        ns[i].0 == n.0,
    ensures
        seen_within(ns, ns.update(i, n)),
        node_seen(ns.update(i, n), n.0),
        ids_distinct(ns) ==> ids_distinct(ns.update(i, n)),
{
    let u = ns.update(i, n);
    assert forall|id: Seq<char>| node_seen(ns, id) implies node_seen(u, id) by {
        let k = choose|k: int| 0 <= k < ns.len() && (#[trigger] ns[k]).0 == id;
        assert(u[k].0 == ns[k].0);
    }
    assert(u[i] == n);
    assert forall|a: int| 0 <= a < u.len() implies (#[trigger] u[a]).0 == ns[a].0 by {}
}

proof fn lemma_seen_within_trans(a: Seq<NodeTriple>, b: Seq<NodeTriple>, c: Seq<NodeTriple>)
    requires
        seen_within(a, b),
        seen_within(b, c),
    ensures
        seen_within(a, c),
{
}

proof fn lemma_all_seen_mono(a: Seq<NodeTriple>, b: Seq<NodeTriple>, ids: Seq<Seq<char>>)
    requires
        seen_within(a, b),
        all_seen(a, ids),
    ensures
        all_seen(b, ids),
{
    assert forall|i: int| 0 <= i < ids.len() implies node_seen(b, #[trigger] ids[i]) by {
        assert(node_seen(a, ids[i]));
    }
}

proof fn lemma_edges_join_mono(a: Seq<NodeTriple>, b: Seq<NodeTriple>, es: Seq<EdgeView>)
    requires
        seen_within(a, b),
        edges_join(a, es),
    ensures
        edges_join(b, es),
{
    assert forall|i: int| 0 <= i < es.len() implies node_seen(b, (#[trigger] es[i]).from) && node_seen(b, es[i].to) by {
        assert(node_seen(a, es[i].from));
        assert(node_seen(a, es[i].to));
    }
}

proof fn lemma_edges_join_concat(ns: Seq<NodeTriple>, e1: Seq<EdgeView>, e2: Seq<EdgeView>)
    requires
        edges_join(ns, e1),
        edges_join(ns, e2),
    ensures
        edges_join(ns, e1 + e2),
{
    let e = e1 + e2;
    assert forall|i: int| 0 <= i < e.len() implies node_seen(ns, (#[trigger] e[i]).from) && node_seen(ns, e[i].to) by {
        if i < e1.len() {
            assert(e[i] == e1[i]);
        } else {
            assert(e[i] == e2[i - e1.len()]);
        }
    }
}

proof fn lemma_add_parts_seen(parts: Seq<Seq<char>>, k: int, nodes: Seq<NodeTriple>)
    ensures
        seen_within(nodes, add_parts(parts, k, nodes).0),
        all_seen(add_parts(parts, k, nodes).0, add_parts(parts, k, nodes).1),
    decreases k,
{
    if k > 0 && k <= parts.len() {
        lemma_add_parts_seen(parts, k - 1, nodes);
        let (ns, ids) = add_parts(parts, k - 1, nodes);
        match spec_node_from_text(parts[k - 1]) {
            Some(n) => {
                let ids2 = ids.push(n.0);
                if node_seen(ns, n.0) {
                    assert forall|i: int| 0 <= i < ids2.len() implies node_seen(ns, #[trigger] ids2[i]) by {
                        if i < ids.len() {
                            assert(ids2[i] == ids[i]);
                        }
                    }
                } else {
                    lemma_seen_push(ns, n);
                    lemma_seen_within_trans(nodes, ns, ns.push(n));
                    assert forall|i: int| 0 <= i < ids2.len() implies node_seen(ns.push(n), #[trigger] ids2[i]) by {
                        if i < ids.len() {
                            assert(ids2[i] == ids[i]);
                            assert(node_seen(ns, ids[i]));
                        }
                    }
                }
            },
            None => {},
        }
    }
}

proof fn lemma_edges_from_join(
    ns: Seq<NodeTriple>,
    froms: Seq<Seq<char>>,
    tos: Seq<Seq<char>>,
    k: int,
    label: Option<Seq<char>>,
    style: EdgeStyle,
    a: ArrowHead,
    b: ArrowHead,
)
    requires
        all_seen(ns, froms),
        all_seen(ns, tos),
    ensures
        edges_join(ns, edges_from(froms, tos, k, label, style, a, b)),
    decreases k,
{
    if k > 0 && k <= froms.len() {
        lemma_edges_from_join(ns, froms, tos, k - 1, label, style, a, b);
        let e1 = edges_from(froms, tos, k - 1, label, style, a, b);
        let r = edges_from(froms, tos, k, label, style, a, b);
        assert(node_seen(ns, froms[k - 1]));
        assert forall|i: int| 0 <= i < r.len() implies node_seen(ns, (#[trigger] r[i]).from) && node_seen(ns, r[i].to) by {
            if i < e1.len() {
                assert(r[i] == e1[i]);
            } else {
                assert(node_seen(ns, tos[i - e1.len()]));
            }
        }
    }
}

proof fn lemma_edge_loop_join(rem: Seq<char>, prev: Seq<Seq<char>>, nodes: Seq<NodeTriple>, edges: Seq<EdgeView>)
    requires
        all_seen(nodes, prev),
        edges_join(nodes, edges),
    ensures
        edges_join(edge_loop(rem, prev, nodes, edges).0, edge_loop(rem, prev, nodes, edges).1),
    decreases rem.len(),
{
    if rem.len() > 0 {
        match find_arrow(rem) {
            None => {},
            Some(m) => {
                let sg = segment(rem, m);
                let (nodes1, from_ids) = if sg.from_text.len() > 0 {
                    add_parts(sg.sources, sg.sources.len() as int, nodes)
                } else {
                    (nodes, prev)
                };
                if sg.from_text.len() > 0 {
                    lemma_add_parts_seen(sg.sources, sg.sources.len() as int, nodes);
                } else {
                    assert(seen_within(nodes, nodes1));
                }
                lemma_add_parts_seen(sg.target_parts, sg.target_parts.len() as int, nodes1);
                let (nodes2, to_ids) = add_parts(sg.target_parts, sg.target_parts.len() as int, nodes1);
                lemma_all_seen_mono(nodes1, nodes2, from_ids);
                lemma_seen_within_trans(nodes, nodes1, nodes2);
                lemma_edges_join_mono(nodes, nodes2, edges);
                lemma_edges_from_join(nodes2, from_ids, to_ids, from_ids.len() as int, sg.label, m.2, m.3, m.4);
                let edges2 = edges + edges_from(from_ids, to_ids, from_ids.len() as int, sg.label, m.2, m.3, m.4);
                lemma_edges_join_concat(nodes2, edges, edges_from(from_ids, to_ids, from_ids.len() as int, sg.label, m.2, m.3, m.4));
                if sg.rest.len() < rem.len() {
                    lemma_edge_loop_join(sg.rest, to_ids, nodes2, edges2);
                }
            },
        }
    }
}

proof fn lemma_merge_node_keeps(st: PState, n: NodeTriple)
    ensures
        seen_within(st.nodes, merge_edge_node(st, n).nodes),
        node_seen(merge_edge_node(st, n).nodes, n.0),
        merge_edge_node(st, n).edges == st.edges,
        ids_distinct(st.nodes) ==> ids_distinct(merge_edge_node(st, n).nodes),
        seen_within(st.nodes, merge_def_node(st, n).nodes),
        merge_def_node(st, n).edges == st.edges,
        ids_distinct(st.nodes) ==> ids_distinct(merge_def_node(st, n).nodes),
{
    lemma_node_index_from_props(st.nodes, n.0, 0);
    match node_index(st.nodes, n.0) {
        Some(i) => {
            lemma_seen_update(st.nodes, i, n);
            assert(st.nodes[i].0 == n.0);
        },
        None => {
            lemma_seen_push(st.nodes, n);
            let p = st.nodes.push(n);
            assert forall|a: int, b: int| ids_distinct(st.nodes) && 0 <= a < b < p.len() implies (#[trigger] p[a]).0 != (#[trigger] p[b]).0 by {
                assert(p[a] == st.nodes[a]);
                if b < st.nodes.len() {
                    assert(p[b] == st.nodes[b]);
                } else {
                    assert(p[b] == n);
                }
            }
        },
    }
}

proof fn lemma_merge_edge_nodes_keeps(st: PState, ns: Seq<NodeTriple>, k: int)
    requires
        0 <= k <= ns.len(),
    ensures
        seen_within(st.nodes, merge_edge_nodes(st, ns, k).nodes),
        forall|j: int| 0 <= j < k ==> node_seen(merge_edge_nodes(st, ns, k).nodes, (#[trigger] ns[j]).0),
        merge_edge_nodes(st, ns, k).edges == st.edges,
        ids_distinct(st.nodes) ==> ids_distinct(merge_edge_nodes(st, ns, k).nodes),
    decreases k,
{
    if k > 0 {
        lemma_merge_edge_nodes_keeps(st, ns, k - 1);
        let s1 = merge_edge_nodes(st, ns, k - 1);
        lemma_merge_node_keeps(s1, ns[k - 1]);
        let s2 = merge_edge_nodes(st, ns, k);
        lemma_seen_within_trans(st.nodes, s1.nodes, s2.nodes);
        assert forall|j: int| 0 <= j < k implies node_seen(s2.nodes, (#[trigger] ns[j]).0) by {
            if j < k - 1 {
                assert(node_seen(s1.nodes, ns[j].0));
            }
        }
    }
}

proof fn lemma_edge_line_merge(st: PState, ns: Seq<NodeTriple>, es: Seq<EdgeView>)
    requires
        edges_join(st.nodes, st.edges),
        edges_join(ns, es),
    ensures
        edges_join(merge_edge_nodes(st, ns, ns.len() as int).nodes, st.edges + es),
{
    let s2 = merge_edge_nodes(st, ns, ns.len() as int);
    lemma_merge_edge_nodes_keeps(st, ns, ns.len() as int);
    lemma_edges_join_mono(st.nodes, s2.nodes, st.edges);
    assert forall|id: Seq<char>| node_seen(ns, id) implies node_seen(s2.nodes, id) by {
        let j = choose|j: int| 0 <= j < ns.len() && (#[trigger] ns[j]).0 == id;
        assert(node_seen(s2.nodes, ns[j].0));
    }
    assert(seen_within(ns, s2.nodes));
    lemma_edges_join_mono(ns, s2.nodes, es);
    lemma_edges_join_concat(s2.nodes, st.edges, es);
}

proof fn lemma_body_step_keeps(st: PState, raw: Seq<char>)
    ensures
        edges_join(st.nodes, st.edges) ==> edges_join(body_step(st, raw).nodes, body_step(st, raw).edges),
        ids_distinct(st.nodes) ==> ids_distinct(body_step(st, raw).nodes),
{
    reveal(body_step);
    let line = trim(raw);
    match spec_edge_line(line) {
        Some((ns, es)) => {
            lemma_edge_loop_join(strip_semicolon(trim(line)), seq![], seq![], seq![]);
            lemma_merge_edge_nodes_keeps(st, ns, ns.len() as int);
            if edges_join(st.nodes, st.edges) {
                lemma_edge_line_merge(st, ns, es);
            }
        },
        None => match spec_node_from_text(line) {
            Some(n) => {
                lemma_merge_node_keeps(st, n);
                if edges_join(st.nodes, st.edges) {
                    lemma_edges_join_mono(st.nodes, merge_def_node(st, n).nodes, st.edges);
                }
            },
            None => {},
        },
    }
}

proof fn lemma_run_body_keeps(lines: Seq<Seq<char>>, start: int, k: int)
    ensures
        edges_join(run_body(lines, start, k).nodes, run_body(lines, start, k).edges),
        ids_distinct(run_body(lines, start, k).nodes),
    decreases k - start,
{
    if k > start && k <= lines.len() {
        lemma_run_body_keeps(lines, start, k - 1);
        lemma_body_step_keeps(run_body(lines, start, k - 1), lines[k - 1]);
    }
}

proof fn lemma_close_all_keeps(st: PState)
    ensures
        close_all(st).nodes == st.nodes,
        close_all(st).edges == st.edges,
    decreases st.stack.len(),
{
    if st.stack.len() > 0 {
        lemma_close_all_keeps(close_top(st));
    }
}

/// Both ends of every edge of a parsed chart are nodes of the chart, and no
/// two nodes share an id.
pub proof fn law_chart_edges_join_nodes(source: Seq<char>)
    ensures
        spec_parse_flowchart(source) matches Ok(c) ==> {
            &&& forall|i: int| 0 <= i < c.edges.len() ==> chart_has_node(c, (#[trigger] c.edges[i]).from)
                && chart_has_node(c, c.edges[i].to)
            &&& forall|a: int, b: int| 0 <= a < b < c.nodes.len() ==> (#[trigger] c.nodes[a]).id != (#[trigger] c.nodes[b]).id
        },
{
    let ls = lines(source);
    if let Ok((dir, start)) = header_scan(ls, 0) {
        let st0 = run_body(ls, start, ls.len() as int);
        lemma_run_body_keeps(ls, start, ls.len() as int);
        lemma_close_all_keeps(st0);
        let st = close_all(st0);
        if let Ok(c) = spec_parse_flowchart(source) {
            assert(c.nodes == st.nodes.map_values(|t: NodeTriple| triple_node(t)));
            assert(c.edges == st.edges);
            assert forall|id: Seq<char>| node_seen(st.nodes, id) implies chart_has_node(c, id) by {
                let a = choose|a: int| 0 <= a < st.nodes.len() && (#[trigger] st.nodes[a]).0 == id;
                assert(c.nodes[a].id == id);
            }
            assert forall|i: int| 0 <= i < c.edges.len() implies chart_has_node(c, (#[trigger] c.edges[i]).from)
                && chart_has_node(c, c.edges[i].to) by {
                assert(node_seen(st.nodes, st.edges[i].from));
                assert(node_seen(st.nodes, st.edges[i].to));
            }
            assert forall|a: int, b: int| 0 <= a < b < c.nodes.len() implies (#[trigger] c.nodes[a]).id != (#[trigger] c.nodes[b]).id by {
                assert(c.nodes[a].id == st.nodes[a].0);
                assert(c.nodes[b].id == st.nodes[b].0);
            }
        }
    }
}

// ─────────────────────────────────────────────────────────────────────────────
// The header, hints and subgraphs of every chart
// ─────────────────────────────────────────────────────────────────────────────

/// Index of the first line at or after `i` that is neither blank nor a `%%`
/// comment.
pub open spec fn first_content_line(ls: Seq<Seq<char>>, i: int) -> Option<int>
    decreases ls.len() - i,
{
    if i < 0 || i >= ls.len() {
        None
    } else if trim(ls[i]).len() == 0 || starts_with(trim(ls[i]), "%%"@) {
        first_content_line(ls, i + 1)
    } else {
        Some(i)
    }
}

/// A header line: it starts (in any ASCII case) with `flowchart` or `graph`.
pub open spec fn is_header(line: Seq<char>) -> bool {
    starts_with(lower(trim(line)), "flowchart"@) || starts_with(lower(trim(line)), "graph"@)
}

proof fn lemma_header_scan(ls: Seq<Seq<char>>, i: int)
    requires
        0 <= i,
    ensures
        header_scan(ls, i) == (match first_content_line(ls, i) {
            None => Err::<(FlowDirection, int), Seq<char>>("Empty flowchart source"@),
            Some(k) => if is_header(ls[k]) {
                Ok((spec_parse_direction(lower(trim(ls[k]))), k + 1))
            } else {
                Err("Expected 'flowchart' or 'graph' declaration"@)
            },
        }),
    decreases ls.len() - i,
{
    if i < ls.len() && (trim(ls[i]).len() == 0 || starts_with(trim(ls[i]), "%%"@)) {
        lemma_header_scan(ls, i + 1);
    }
}

/// Parsing fails exactly at the header: with "Empty flowchart source" when no
/// line but blank ones and `%%` comments, and with "Expected 'flowchart' or
/// 'graph' declaration" when the first other line does not start (in any ASCII
/// case) with `flowchart` or `graph`.
pub proof fn law_flowchart_header_errors(source: Seq<char>)
    ensures
        spec_parse_flowchart(source) is Err <==> !(first_content_line(lines(source), 0) matches Some(k) && is_header(lines(source)[k])),
        spec_parse_flowchart(source) == Err::<ChartView, Seq<char>>("Empty flowchart source"@) <==> first_content_line(lines(source), 0) is None,
        spec_parse_flowchart(source) == Err::<ChartView, Seq<char>>("Expected 'flowchart' or 'graph' declaration"@)
            <==> (first_content_line(lines(source), 0) matches Some(k) && !is_header(lines(source)[k])),
{
    reveal_strlit("Empty flowchart source");
    reveal_strlit("Expected 'flowchart' or 'graph' declaration");
    lemma_header_scan(lines(source), 0);
    assert("Empty flowchart source"@ != "Expected 'flowchart' or 'graph' declaration"@) by {
        assert("Empty flowchart source"@.len() != "Expected 'flowchart' or 'graph' declaration"@.len());
    }
}

/// A parsed chart's direction is the one its header line names (see
/// [`law_direction_tokens`]), read from the lowercased header.
pub proof fn law_flowchart_direction(source: Seq<char>)
    ensures
        spec_parse_flowchart(source) matches Ok(f) ==> (first_content_line(lines(source), 0) matches Some(k)
            && f.direction == spec_parse_direction(lower(trim(lines(source)[k])))),
{
    lemma_header_scan(lines(source), 0);
}

proof fn lemma_hints_upto(ls: Seq<Seq<char>>, k: int, nodes: Seq<NodeTriple>)
    requires
        0 <= k <= ls.len(),
    ensures
        forall|i: int| 0 <= i < hints_upto(ls, k, nodes).0.len() ==> node_seen(nodes, (#[trigger] hints_upto(ls, k, nodes).0[i]).node_id),
        forall|i: int| 0 <= i < hints_upto(ls, k, nodes).1.len() ==> 1 <= (#[trigger] hints_upto(ls, k, nodes).1[i]).line <= k,
    decreases k,
{
    if k > 0 {
        lemma_hints_upto(ls, k - 1, nodes);
        let (hs, ws) = hints_upto(ls, k - 1, nodes);
        let (hs2, ws2) = hints_upto(ls, k, nodes);
        assert forall|i: int| 0 <= i < hs2.len() implies node_seen(nodes, (#[trigger] hs2[i]).node_id) by {
            if i < hs.len() {
                assert(hs2[i] == hs[i]);
            }
        }
        assert forall|i: int| 0 <= i < ws2.len() implies 1 <= (#[trigger] ws2[i]).line <= k by {
            if i < ws.len() {
                assert(ws2[i] == ws[i]);
            }
        }
    }
}

/// Every position hint of a parsed chart names one of its nodes, and every
/// warning names a line of the source.
pub proof fn law_chart_hints_and_warnings(source: Seq<char>)
    ensures
        spec_parse_flowchart(source) matches Ok(c) ==> {
            &&& forall|i: int| 0 <= i < c.position_hints.len() ==> chart_has_node(c, (#[trigger] c.position_hints[i]).node_id)
            &&& forall|i: int| 0 <= i < c.warnings.len() ==> 1 <= (#[trigger] c.warnings[i]).line <= lines(source).len()
        },
{
    let ls = lines(source);
    if let Ok((dir, start)) = header_scan(ls, 0) {
        let st = close_all(run_body(ls, start, ls.len() as int));
        lemma_hints_upto(ls, ls.len() as int, st.nodes);
        if let Ok(c) = spec_parse_flowchart(source) {
            assert(c.nodes == st.nodes.map_values(|t: NodeTriple| triple_node(t)));
            assert forall|id: Seq<char>| node_seen(st.nodes, id) implies chart_has_node(c, id) by {
                let a = choose|a: int| 0 <= a < st.nodes.len() && (#[trigger] st.nodes[a]).0 == id;
                assert(c.nodes[a].id == id);
            }
            assert forall|i: int| 0 <= i < c.position_hints.len() implies chart_has_node(c, (#[trigger] c.position_hints[i]).node_id) by {
                assert(node_seen(st.nodes, c.position_hints[i].node_id));
            }
        }
    }
}

/// Every node id listed by a subgraph of `subs` names a node of `ns`.
pub open spec fn subs_in(ns: Seq<NodeTriple>, subs: Seq<SubgraphView>) -> bool {
    forall|a: int, b: int| 0 <= a < subs.len() && 0 <= b < subs[a].node_ids.len() ==> node_seen(ns, #[trigger] subs[a].node_ids[b])
}

/// The open and the closed subgraphs list only nodes of the state.
pub open spec fn state_subs_ok(st: PState) -> bool {
    subs_in(st.nodes, st.stack) && subs_in(st.nodes, st.subgraphs)
}

proof fn lemma_subs_in_mono(a: Seq<NodeTriple>, b: Seq<NodeTriple>, subs: Seq<SubgraphView>)
    requires
        seen_within(a, b),
        subs_in(a, subs),
    ensures
        subs_in(b, subs),
{
    assert forall|x: int, y: int| 0 <= x < subs.len() && 0 <= y < subs[x].node_ids.len() implies node_seen(b, #[trigger] subs[x].node_ids[y]) by {
        assert(node_seen(a, subs[x].node_ids[y]));
    }
}

proof fn lemma_top_push_in(ns: Seq<NodeTriple>, stack: Seq<SubgraphView>, id: Seq<char>)
    requires
        subs_in(ns, stack),
        node_seen(ns, id),
    ensures
        subs_in(ns, top_push(stack, id)),
        subs_in(ns, top_add(stack, id)),
{
    let s2 = top_push(stack, id);
    if stack.len() > 0 {
        let last = stack.len() - 1;
        assert forall|x: int, y: int| 0 <= x < s2.len() && 0 <= y < s2[x].node_ids.len() implies node_seen(ns, #[trigger] s2[x].node_ids[y]) by {
            if x == last {
                if y < stack[last].node_ids.len() {
                    assert(s2[x].node_ids[y] == stack[last].node_ids[y]);
                }
            } else {
                assert(s2[x] == stack[x]);
            }
        }
    }
}

proof fn lemma_merge_node_subs(st: PState, n: NodeTriple)
    requires
        state_subs_ok(st),
    ensures
        state_subs_ok(merge_edge_node(st, n)),
        state_subs_ok(merge_def_node(st, n)),
{
    lemma_node_index_from_props(st.nodes, n.0, 0);
    lemma_merge_node_keeps(st, n);
    match node_index(st.nodes, n.0) {
        Some(i) => {
            assert(node_seen(st.nodes, n.0)) by {
                assert(st.nodes[i].0 == n.0);
            }
            lemma_seen_update(st.nodes, i, n);
            let u = st.nodes.update(i, n);
            lemma_subs_in_mono(st.nodes, u, st.stack);
            lemma_subs_in_mono(st.nodes, u, st.subgraphs);
            lemma_top_push_in(st.nodes, st.stack, n.0);
            lemma_top_push_in(u, st.stack, n.0);
        },
        None => {
            lemma_seen_push(st.nodes, n);
            let p = st.nodes.push(n);
            lemma_subs_in_mono(st.nodes, p, st.stack);
            lemma_subs_in_mono(st.nodes, p, st.subgraphs);
            lemma_top_push_in(p, st.stack, n.0);
        },
    }
}

proof fn lemma_merge_edge_nodes_subs(st: PState, ns: Seq<NodeTriple>, k: int)
    requires
        0 <= k <= ns.len(),
        state_subs_ok(st),
    ensures
        state_subs_ok(merge_edge_nodes(st, ns, k)),
    decreases k,
{
    if k > 0 {
        lemma_merge_edge_nodes_subs(st, ns, k - 1);
        lemma_merge_node_subs(merge_edge_nodes(st, ns, k - 1), ns[k - 1]);
    }
}

proof fn lemma_close_top_subs(st: PState)
    requires
        state_subs_ok(st),
    ensures
        state_subs_ok(close_top(st)),
        close_top(st).nodes == st.nodes,
{
    if st.stack.len() > 0 {
        let b = st.stack.last();
        let s1 = st.stack.drop_last();
        let c = close_top(st);
        assert forall|x: int, y: int| 0 <= x < c.stack.len() && 0 <= y < c.stack[x].node_ids.len() implies node_seen(st.nodes, #[trigger] c.stack[x].node_ids[y]) by {
            assert(c.stack[x].node_ids == st.stack[x].node_ids);
        }
        assert forall|x: int, y: int| 0 <= x < c.subgraphs.len() && 0 <= y < c.subgraphs[x].node_ids.len() implies node_seen(st.nodes, #[trigger] c.subgraphs[x].node_ids[y]) by {
            if x < st.subgraphs.len() {
                assert(c.subgraphs[x] == st.subgraphs[x]);
            } else {
                assert(c.subgraphs[x] == b);
                assert(b == st.stack[st.stack.len() - 1]);
            }
        }
    }
}

proof fn lemma_close_all_subs(st: PState)
    requires
        state_subs_ok(st),
    ensures
        state_subs_ok(close_all(st)),
    decreases st.stack.len(),
{
    if st.stack.len() > 0 {
        lemma_close_top_subs(st);
        lemma_close_all_subs(close_top(st));
    }
}

proof fn lemma_body_step_subs(st: PState, raw: Seq<char>)
    requires
        state_subs_ok(st),
    ensures
        state_subs_ok(body_step(st, raw)),
{
    reveal(body_step);
    let line = trim(raw);
    let ll = lower(line);
    if line.len() == 0 || starts_with(line, "%%"@) {
    } else if starts_with(ll, "classdef "@) || starts_with(ll, "class "@) || starts_with(fold(line), "linkstyle "@)
        || starts_with(ll, "style "@) || starts_with(fold(line), "click "@) {
    } else if starts_with(ll, "subgraph"@) {
        let (id, title, c) = spec_subgraph_header(line, st.counter);
        let s2 = st.stack.push(SubgraphView { id, title, node_ids: seq![], child_subgraph_ids: seq![], direction: None });
        assert forall|x: int, y: int| 0 <= x < s2.len() && 0 <= y < s2[x].node_ids.len() implies node_seen(st.nodes, #[trigger] s2[x].node_ids[y]) by {
            assert(x < st.stack.len());
            assert(s2[x] == st.stack[x]);
        }
    } else if ll == "end"@ {
        lemma_close_top_subs(st);
    } else if st.stack.len() > 0 && starts_with(ll, "direction"@) {
        let s2 = st.stack.update(st.stack.len() - 1, SubgraphView { direction: Some(spec_parse_direction(ll)), ..st.stack.last() });
        assert forall|x: int, y: int| 0 <= x < s2.len() && 0 <= y < s2[x].node_ids.len() implies node_seen(st.nodes, #[trigger] s2[x].node_ids[y]) by {
            assert(s2[x].node_ids == st.stack[x].node_ids);
        }
    } else {
        match spec_edge_line(line) {
            Some((ns, es)) => {
                lemma_merge_edge_nodes_subs(st, ns, ns.len() as int);
            },
            None => match spec_node_from_text(line) {
                Some(n) => {
                    lemma_merge_node_subs(st, n);
                },
                None => {},
            },
        }
    }
}

proof fn lemma_run_body_subs(lines: Seq<Seq<char>>, start: int, k: int)
    ensures
        state_subs_ok(run_body(lines, start, k)),
    decreases k - start,
{
    if k > start && k <= lines.len() {
        lemma_run_body_subs(lines, start, k - 1);
        lemma_body_step_subs(run_body(lines, start, k - 1), lines[k - 1]);
    }
}

/// Every node id a subgraph of a parsed chart lists is a node of the chart.
pub proof fn law_chart_subgraph_nodes(source: Seq<char>)
    ensures
        spec_parse_flowchart(source) matches Ok(c) ==> forall|a: int, b: int|
            0 <= a < c.subgraphs.len() && 0 <= b < c.subgraphs[a].node_ids.len() ==> chart_has_node(c, #[trigger] c.subgraphs[a].node_ids[b]),
{
    let ls = lines(source);
    if let Ok((dir, start)) = header_scan(ls, 0) {
        let st0 = run_body(ls, start, ls.len() as int);
        lemma_run_body_subs(ls, start, ls.len() as int);
        lemma_close_all_subs(st0);
        lemma_close_all_keeps(st0);
        let st = close_all(st0);
        if let Ok(c) = spec_parse_flowchart(source) {
            assert(c.nodes == st.nodes.map_values(|t: NodeTriple| triple_node(t)));
            assert forall|id: Seq<char>| node_seen(st.nodes, id) implies chart_has_node(c, id) by {
                let a = choose|a: int| 0 <= a < st.nodes.len() && (#[trigger] st.nodes[a]).0 == id;
                assert(c.nodes[a].id == id);
            }
            assert forall|a: int, b: int| 0 <= a < c.subgraphs.len() && 0 <= b < c.subgraphs[a].node_ids.len() implies chart_has_node(c, #[trigger] c.subgraphs[a].node_ids[b]) by {
                assert(node_seen(st.nodes, st.subgraphs[a].node_ids[b]));
            }
        }
    }
}

} // verus!
