//! User-facing preference enums: theme, editor font, view mode, outline side.
use vstd::prelude::*;
use crate::text::{chars_of, eq};

verus! {

/// Available color themes for the editor.
#[derive(Debug, Clone, Copy, PartialEq, Eq, Structural)]
pub enum Theme {
    Light,
    Dark,
    System,
}

impl Default for Theme {
    fn default() -> (r: Self)
        ensures
            r == Theme::Light,
    {
        Theme::Light
    }
}

/// Available font families for the editor.
#[derive(Debug, Clone, Copy, PartialEq, Eq, Structural)]
pub enum EditorFont {
    /// Inter - modern, clean UI font (default)
    Inter,
    /// JetBrains Mono - monospace font, good for code-heavy documents
    JetBrainsMono,
}

impl Default for EditorFont {
    fn default() -> (r: Self)
        ensures
            r == EditorFont::Inter,
    {
        EditorFont::Inter
    }
}

impl EditorFont {
    pub open spec fn spec_display_name(self) -> Seq<char> {
        match self {
            EditorFont::Inter => "Inter"@,
            EditorFont::JetBrainsMono => "JetBrains Mono"@,
        }
    }

    pub open spec fn spec_description(self) -> Seq<char> {
        match self {
            EditorFont::Inter => "Modern, clean proportional font"@,
            EditorFont::JetBrainsMono => "Monospace font for code"@,
        }
    }

    /// The display name for the font.
    pub fn display_name(&self) -> (r: &'static str)
        ensures
            r@ == self.spec_display_name(),
    {
        match self {
            EditorFont::Inter => "Inter",
            EditorFont::JetBrainsMono => "JetBrains Mono",
        }
    }

    /// A description of the font.
    pub fn description(&self) -> (r: &'static str)
        ensures
            r@ == self.spec_description(),
    {
        match self {
            EditorFont::Inter => "Modern, clean proportional font",
            EditorFont::JetBrainsMono => "Monospace font for code",
        }
    }

    /// All available fonts, default first.
    pub fn all() -> (r: &'static [EditorFont])
        ensures
            r@ == seq![EditorFont::Inter, EditorFont::JetBrainsMono],
    {
        let r: &'static [EditorFont] = &[EditorFont::Inter, EditorFont::JetBrainsMono];
        assert(r@ =~= seq![EditorFont::Inter, EditorFont::JetBrainsMono]);
        r
    }
}

/// Editor view modes for markdown editing.
#[derive(Debug, Clone, Copy, PartialEq, Eq, Structural)]
pub enum ViewMode {
    /// Raw markdown text editing
    Raw,
    /// WYSIWYG rendered editing
    Rendered,
}

impl Default for ViewMode {
    fn default() -> (r: Self)
        ensures
            r == ViewMode::Raw,
    {
        ViewMode::Raw
    }
}

impl ViewMode {
    pub open spec fn spec_toggle(self) -> ViewMode {
        match self {
            ViewMode::Raw => ViewMode::Rendered,
            ViewMode::Rendered => ViewMode::Raw,
        }
    }

    pub open spec fn spec_label(self) -> Seq<char> {
        match self {
            ViewMode::Raw => "Raw"@,
            ViewMode::Rendered => "Rendered"@,
        }
    }

    pub open spec fn spec_icon(self) -> Seq<char> {
        match self {
            ViewMode::Raw => "\u{1F4DD}"@,
            ViewMode::Rendered => "\u{1F441}"@,
        }
    }

    /// Toggle between Raw and Rendered modes.
    pub fn toggle(&self) -> (r: Self)
        ensures
            r == self.spec_toggle(),
    {
        match self {
            ViewMode::Raw => ViewMode::Rendered,
            ViewMode::Rendered => ViewMode::Raw,
        }
    }

    /// A display label for the mode.
    pub fn label(&self) -> (r: &'static str)
        ensures
            r@ == self.spec_label(),
    {
        match self {
            ViewMode::Raw => "Raw",
            ViewMode::Rendered => "Rendered",
        }
    }

    /// An icon for the mode.
    pub fn icon(&self) -> (r: &'static str)
        ensures
            r@ == self.spec_icon(),
    {
        match self {
            ViewMode::Raw => "\u{1F4DD}",
            ViewMode::Rendered => "\u{1F441}",
        }
    }
}

/// Which side of the editor the outline panel appears on.
#[derive(Debug, Clone, Copy, PartialEq, Eq, Structural)]
pub enum OutlinePanelSide {
    Left,
    Right,
}

impl Default for OutlinePanelSide {
    fn default() -> (r: Self)
        ensures
            r == OutlinePanelSide::Right,
    {
        OutlinePanelSide::Right
    }
}

impl OutlinePanelSide {
    pub open spec fn spec_toggle(self) -> OutlinePanelSide {
        match self {
            OutlinePanelSide::Left => OutlinePanelSide::Right,
            OutlinePanelSide::Right => OutlinePanelSide::Left,
        }
    }

    pub open spec fn spec_label(self) -> Seq<char> {
        match self {
            OutlinePanelSide::Left => "Left"@,
            OutlinePanelSide::Right => "Right"@,
        }
    }

    /// Toggle between left and right.
    pub fn toggle(&self) -> (r: Self)
        ensures
            r == self.spec_toggle(),
    {
        match self {
            OutlinePanelSide::Left => OutlinePanelSide::Right,
            OutlinePanelSide::Right => OutlinePanelSide::Left,
        }
    }

    /// Display label.
    pub fn label(&self) -> (r: &'static str)
        ensures
            r@ == self.spec_label(),
    {
        match self {
            OutlinePanelSide::Left => "Left",
            OutlinePanelSide::Right => "Right",
        }
    }
}

/// Toggling a view mode twice gives the mode back, and toggling always changes it.
pub proof fn law_view_mode_toggle_involution(m: ViewMode)
    ensures
        m.spec_toggle().spec_toggle() == m,
        m.spec_toggle() != m,
{
}

/// Toggling the outline side twice gives the side back, and toggling always changes it.
pub proof fn law_outline_side_toggle_involution(s: OutlinePanelSide)
    ensures
        s.spec_toggle().spec_toggle() == s,
        s.spec_toggle() != s,
{
}

// ─────────────────────────────────────────────────────────────────────────────
// Recent lists and value sanitizing
// ─────────────────────────────────────────────────────────────────────────────

pub open spec fn strs(v: Seq<String>) -> Seq<Seq<char>> {
    v.map_values(|s: String| s@)
}

/// A recent list after using `entry`: it moves to the front (an earlier
/// occurrence is dropped) and the list keeps its first `max` entries.
pub open spec fn other_than(entry: Seq<char>) -> spec_fn(Seq<char>) -> bool {
    |p: Seq<char>| p != entry
}

pub open spec fn spec_add_recent(list: Seq<Seq<char>>, entry: Seq<char>, max: nat) -> Seq<Seq<char>> {
    let l = seq![entry] + list.filter(other_than(entry));
    if l.len() > max {
        l.take(max as int)
    } else {
        l
    }
}

/// Records `entry` as the most recent of `list` (files or workspaces), which
/// keeps at most `max` entries.
pub fn add_recent(list: &mut Vec<String>, entry: String, max: usize)
    ensures
        strs(final(list)@) == spec_add_recent(strs(old(list)@), entry@, max as nat),
{
    let e = chars_of(entry.as_str());
    let ghost ol = strs(list@);
    let ghost pred = other_than(e@);
    let mut out: Vec<String> = Vec::new();
    out.push(entry);
    let mut i: usize = 0;
    while i < list.len()
        invariant
            i <= list@.len(),
            ol == strs(list@),
            pred == other_than(e@),
            strs(out@) == seq![e@] + ol.take(i as int).filter(pred),
        decreases list@.len() - i,
    {
        let ghost before = out@;
        let x = chars_of(list[i].as_str());
        assert(ol[i as int] == list@[i as int]@);
        proof {
            reveal(Seq::filter);
            assert(ol.take(i + 1).drop_last() =~= ol.take(i as int));
            assert(ol.take(i + 1).last() == ol[i as int]);
        }
        if !eq(&x, &e) {
            let c = list[i].clone();
            out.push(c);
            assert(out@ =~= before.push(c));
            assert(strs(out@) =~= strs(before).push(c@));
        }
        i = i + 1;
    }
    assert(ol.take(ol.len() as int) =~= ol);
    let ghost full = out@;
    out.truncate(max);
    proof {
        if max < full.len() {
            assert(strs(out@) =~= strs(full).take(max as int));
        }
    }
    *list = out;
}

/// The entry just recorded comes first and only there, and the list keeps at
/// most `max` entries, each of them the entry or one that was listed before.
pub proof fn law_recent_front_once_bounded(list: Seq<Seq<char>>, entry: Seq<char>, max: nat)
    requires
        max >= 1,
    ensures
        spec_add_recent(list, entry, max)[0] == entry,
        spec_add_recent(list, entry, max).len() <= max,
        forall|i: int| 0 < i < spec_add_recent(list, entry, max).len() ==> (#[trigger] spec_add_recent(list, entry, max)[i]) != entry,
        forall|i: int| 0 < i < spec_add_recent(list, entry, max).len() ==> list.contains(#[trigger] spec_add_recent(list, entry, max)[i]),
{
    let pred = other_than(entry);
    let f = list.filter(pred);
    let l = seq![entry] + f;
    let r = spec_add_recent(list, entry, max);
    assert forall|i: int| 0 < i < r.len() implies (#[trigger] r[i]) != entry && list.contains(r[i]) by {
        assert(r[i] == l[i]);
        assert(l[i] == f[i - 1]);
        list.lemma_filter_pred(pred, i - 1);
        assert(f.contains(f[i - 1]));
        list.lemma_filter_contains_rev(pred, f[i - 1]);
    }
}

proof fn lemma_filter_keeps_all(s: Seq<Seq<char>>, p: spec_fn(Seq<char>) -> bool)
    requires
        forall|i: int| 0 <= i < s.len() ==> p(#[trigger] s[i]),
    ensures
        s.filter(p) == s,
    decreases s.len(),
{
    reveal(Seq::filter);
    if s.len() > 0 {
        lemma_filter_keeps_all(s.drop_last(), p);
        assert(p(s[s.len() - 1]));
        assert(s.drop_last().push(s.last()) =~= s);
    } else {
        assert(s.filter(p) =~= s);
    }
}

/// Recording the most recent entry once more leaves the list as it is.
pub proof fn law_recent_readd_unchanged(list: Seq<Seq<char>>, entry: Seq<char>, max: nat)
    ensures
        spec_add_recent(spec_add_recent(list, entry, max), entry, max) == spec_add_recent(list, entry, max),
{
    let p = other_than(entry);
    let f = list.filter(p);
    let l = seq![entry] + f;
    let l1 = spec_add_recent(list, entry, max);
    assert forall|i: int| 0 <= i < f.len() implies p(#[trigger] f[i]) by {
        list.lemma_filter_pred(p, i);
    }
    assert(!p(entry));
    let k: int = if l.len() > max {
        if max == 0 { 0 } else { max - 1 }
    } else {
        f.len() as int
    };
    let g = f.take(k);
    assert forall|i: int| 0 <= i < g.len() implies p(#[trigger] g[i]) by {
        assert(g[i] == f[i]);
    }
    lemma_filter_keeps_all(g, p);
    g.lemma_filter_prepend(entry, p);
    assert((seq![entry] + g).filter(p) =~= g);
    if max == 0 {
        assert(l1 =~= Seq::<Seq<char>>::empty());
        reveal(Seq::filter);
        assert(l1.filter(p) =~= Seq::<Seq<char>>::empty());
        assert(spec_add_recent(l1, entry, max) =~= l1);
    } else {
        assert(l1 =~= seq![entry] + g);
        assert(spec_add_recent(l1, entry, max) =~= l1);
    }
}

/// Smallest tab width a settings file may hold.
pub const MIN_TAB_SIZE: u8 = 1;
/// Largest tab width a settings file may hold.
pub const MAX_TAB_SIZE: u8 = 8;

/// A tab width clamped to `MIN_TAB_SIZE..=MAX_TAB_SIZE`.
pub fn sanitize_tab_size(n: u8) -> (r: u8)
    ensures
        r == (if n < MIN_TAB_SIZE { MIN_TAB_SIZE } else if n > MAX_TAB_SIZE { MAX_TAB_SIZE } else { n }),
{
    if n < MIN_TAB_SIZE {
        MIN_TAB_SIZE
    } else if n > MAX_TAB_SIZE {
        MAX_TAB_SIZE
    } else {
        n
    }
}

/// A recent-files limit: 0 falls back to 10, more than 100 becomes 100.
pub fn sanitize_max_recent(n: usize) -> (r: usize)
    ensures
        r == (if n == 0 { 10 } else if n > 100 { 100 } else { n }),
{
    if n == 0 {
        10
    } else if n > 100 {
        100
    } else {
        n
    }
}

/// An auto-save interval: at least 5 seconds when auto-save is on.
pub fn sanitize_auto_save_interval(auto_save: bool, secs: u32) -> (r: u32)
    ensures
        r == (if auto_save && secs < 5 { 5 } else { secs }),
{
    if auto_save && secs < 5 {
        5
    } else {
        secs
    }
}

/// An active-tab index: past the last open tab it becomes the last one; with
/// no open tabs it is kept.
pub fn sanitize_active_tab_index(index: usize, tab_count: usize) -> (r: usize)
    ensures
        r == (if tab_count > 0 && index >= tab_count { (tab_count - 1) as usize } else { index }),
{
    if tab_count > 0 && index >= tab_count {
        tab_count - 1
    } else {
        index
    }
}

} // verus!
