//! Keyboard shortcuts: which application command a key press asks for.
//!
//! The table is read top to bottom and the first rule that matches wins, so a
//! more specific chord (Ctrl+Shift+S) is listed before a looser one (Ctrl+S).
use vstd::prelude::*;

verus! {

/// The keys that take part in a shortcut.
#[derive(Clone, Copy, Debug, PartialEq, Eq, Structural)]
pub enum ShortcutKey {
    S, E, T, Tab, Z, Y, O, N, W, Comma, F, H, F1, F3, B, P, C, K, I, Q, Backtick, Num1, Num2, Num3, Num4, Num5, Num6, Escape,
}

/// A Markdown formatting command a shortcut applies to the selection.
#[derive(Clone, Copy, Debug, PartialEq, Eq, Structural)]
pub enum FormatCommand {
    BulletList,
    NumberedList,
    CodeBlock,
    Image,
    Bold,
    Italic,
    Link,
    Blockquote,
    InlineCode,
    /// A heading of the given level (1 to 6).
    Heading(u8),
}

/// The command a shortcut asks for.
#[derive(Clone, Copy, Debug, PartialEq, Eq, Structural)]
pub enum Shortcut {
    /// Save the current file (Ctrl+S).
    Save,
    /// Save under another name (Ctrl+Shift+S).
    SaveAs,
    /// Open a file (Ctrl+O).
    Open,
    /// New file (Ctrl+N).
    New,
    /// New tab (Ctrl+T).
    NewTab,
    /// Close the current tab (Ctrl+W).
    CloseTab,
    /// Next tab (Ctrl+Tab).
    NextTab,
    /// Previous tab (Ctrl+Shift+Tab).
    PrevTab,
    /// Toggle raw and rendered view (Ctrl+E).
    ToggleViewMode,
    /// Cycle the theme (Ctrl+Shift+T).
    CycleTheme,
    /// Undo (Ctrl+Z).
    Undo,
    /// Redo (Ctrl+Y or Ctrl+Shift+Z).
    Redo,
    /// Open the settings (Ctrl+,).
    OpenSettings,
    /// Open the find panel (Ctrl+F).
    OpenFind,
    /// Open find and replace (Ctrl+H).
    OpenFindReplace,
    /// Next match (F3).
    FindNext,
    /// Previous match (Shift+F3).
    FindPrev,
    /// Close the find panel (Escape).
    CloseFindPanel,
    /// Apply a formatting command.
    Format(FormatCommand),
    /// Toggle the outline panel (Ctrl+Shift+O).
    ToggleOutline,
    /// Toggle the file tree (Ctrl+B).
    ToggleFileTree,
    /// Quick file switcher (Ctrl+P).
    QuickOpen,
    /// Search in files (Ctrl+Shift+F).
    SearchInFiles,
    /// Export as HTML (Ctrl+Shift+E).
    ExportHtml,
    /// Open the about panel (F1).
    OpenAbout,
}

/// One row of the shortcut table: the key, whether Ctrl must be held, what
/// Shift must be (`None`: either), and the command.
#[derive(Clone, Copy, Debug, PartialEq, Eq, Structural)]
pub struct ShortcutRule {
    pub key: ShortcutKey,
    pub ctrl: bool,
    pub shift: Option<bool>,
    pub action: Shortcut,
}

/// The shortcut table, first match first.
pub open spec fn shortcut_table() -> Seq<ShortcutRule> {
    seq![
        ShortcutRule { key: ShortcutKey::S, ctrl: true, shift: Some(true), action: Shortcut::SaveAs },
        ShortcutRule { key: ShortcutKey::E, ctrl: true, shift: Some(false), action: Shortcut::ToggleViewMode },
        ShortcutRule { key: ShortcutKey::T, ctrl: true, shift: Some(true), action: Shortcut::CycleTheme },
        ShortcutRule { key: ShortcutKey::Tab, ctrl: true, shift: Some(true), action: Shortcut::PrevTab },
        ShortcutRule { key: ShortcutKey::Z, ctrl: true, shift: Some(true), action: Shortcut::Redo },
        ShortcutRule { key: ShortcutKey::Z, ctrl: true, shift: Some(false), action: Shortcut::Undo },
        ShortcutRule { key: ShortcutKey::Y, ctrl: true, shift: None, action: Shortcut::Redo },
        ShortcutRule { key: ShortcutKey::S, ctrl: true, shift: Some(false), action: Shortcut::Save },
        ShortcutRule { key: ShortcutKey::O, ctrl: true, shift: Some(false), action: Shortcut::Open },
        ShortcutRule { key: ShortcutKey::N, ctrl: true, shift: Some(false), action: Shortcut::New },
        ShortcutRule { key: ShortcutKey::T, ctrl: true, shift: None, action: Shortcut::NewTab },
        ShortcutRule { key: ShortcutKey::W, ctrl: true, shift: None, action: Shortcut::CloseTab },
        ShortcutRule { key: ShortcutKey::Tab, ctrl: true, shift: Some(false), action: Shortcut::NextTab },
        ShortcutRule { key: ShortcutKey::Comma, ctrl: true, shift: None, action: Shortcut::OpenSettings },
        ShortcutRule { key: ShortcutKey::F, ctrl: true, shift: Some(false), action: Shortcut::OpenFind },
        ShortcutRule { key: ShortcutKey::H, ctrl: true, shift: None, action: Shortcut::OpenFindReplace },
        ShortcutRule { key: ShortcutKey::F1, ctrl: false, shift: None, action: Shortcut::OpenAbout },
        ShortcutRule { key: ShortcutKey::F3, ctrl: false, shift: Some(false), action: Shortcut::FindNext },
        ShortcutRule { key: ShortcutKey::F3, ctrl: false, shift: Some(true), action: Shortcut::FindPrev },
        ShortcutRule { key: ShortcutKey::B, ctrl: true, shift: Some(true), action: Shortcut::Format(FormatCommand::BulletList) },
        ShortcutRule { key: ShortcutKey::N, ctrl: true, shift: Some(true), action: Shortcut::Format(FormatCommand::NumberedList) },
        ShortcutRule { key: ShortcutKey::O, ctrl: true, shift: Some(true), action: Shortcut::ToggleOutline },
        ShortcutRule { key: ShortcutKey::B, ctrl: true, shift: Some(false), action: Shortcut::ToggleFileTree },
        ShortcutRule { key: ShortcutKey::P, ctrl: true, shift: Some(false), action: Shortcut::QuickOpen },
        ShortcutRule { key: ShortcutKey::F, ctrl: true, shift: Some(true), action: Shortcut::SearchInFiles },
        ShortcutRule { key: ShortcutKey::E, ctrl: true, shift: Some(true), action: Shortcut::ExportHtml },
        ShortcutRule { key: ShortcutKey::C, ctrl: true, shift: Some(true), action: Shortcut::Format(FormatCommand::CodeBlock) },
        ShortcutRule { key: ShortcutKey::K, ctrl: true, shift: Some(true), action: Shortcut::Format(FormatCommand::Image) },
        ShortcutRule { key: ShortcutKey::B, ctrl: true, shift: Some(false), action: Shortcut::Format(FormatCommand::Bold) },
        ShortcutRule { key: ShortcutKey::I, ctrl: true, shift: Some(false), action: Shortcut::Format(FormatCommand::Italic) },
        ShortcutRule { key: ShortcutKey::K, ctrl: true, shift: Some(false), action: Shortcut::Format(FormatCommand::Link) },
        ShortcutRule { key: ShortcutKey::Q, ctrl: true, shift: None, action: Shortcut::Format(FormatCommand::Blockquote) },
        ShortcutRule { key: ShortcutKey::Backtick, ctrl: true, shift: None, action: Shortcut::Format(FormatCommand::InlineCode) },
        ShortcutRule { key: ShortcutKey::Num1, ctrl: true, shift: Some(false), action: Shortcut::Format(FormatCommand::Heading(1)) },
        ShortcutRule { key: ShortcutKey::Num2, ctrl: true, shift: Some(false), action: Shortcut::Format(FormatCommand::Heading(2)) },
        ShortcutRule { key: ShortcutKey::Num3, ctrl: true, shift: Some(false), action: Shortcut::Format(FormatCommand::Heading(3)) },
        ShortcutRule { key: ShortcutKey::Num4, ctrl: true, shift: Some(false), action: Shortcut::Format(FormatCommand::Heading(4)) },
        ShortcutRule { key: ShortcutKey::Num5, ctrl: true, shift: Some(false), action: Shortcut::Format(FormatCommand::Heading(5)) },
        ShortcutRule { key: ShortcutKey::Num6, ctrl: true, shift: Some(false), action: Shortcut::Format(FormatCommand::Heading(6)) },
        ShortcutRule { key: ShortcutKey::Escape, ctrl: false, shift: None, action: Shortcut::CloseFindPanel }
    ]
}

/// The rule applies to this frame's keys and modifiers.
pub open spec fn rule_matches(r: ShortcutRule, ctrl: bool, shift: bool, pressed: Seq<ShortcutKey>) -> bool {
    &&& pressed.contains(r.key)
    &&& r.ctrl ==> ctrl
    &&& match r.shift {
        Some(s) => shift == s,
        None => true,
    }
}

/// The command of the first rule from `i` on that applies.
pub open spec fn first_match(rules: Seq<ShortcutRule>, i: int, ctrl: bool, shift: bool, pressed: Seq<ShortcutKey>) -> Option<Shortcut>
    decreases rules.len() - i,
{
    if i < 0 || i >= rules.len() {
        None
    } else if rule_matches(rules[i], ctrl, shift, pressed) {
        Some(rules[i].action)
    } else {
        first_match(rules, i + 1, ctrl, shift, pressed)
    }
}

/// The command the pressed keys ask for, given the held modifiers.
pub open spec fn spec_shortcut(ctrl: bool, shift: bool, pressed: Seq<ShortcutKey>) -> Option<Shortcut> {
    first_match(shortcut_table(), 0, ctrl, shift, pressed)
}

fn shortcut_rules() -> (r: Vec<ShortcutRule>)
    ensures
        r@ == shortcut_table(),
{
    let r = vec![
        ShortcutRule { key: ShortcutKey::S, ctrl: true, shift: Some(true), action: Shortcut::SaveAs },
        ShortcutRule { key: ShortcutKey::E, ctrl: true, shift: Some(false), action: Shortcut::ToggleViewMode },
        ShortcutRule { key: ShortcutKey::T, ctrl: true, shift: Some(true), action: Shortcut::CycleTheme },
        ShortcutRule { key: ShortcutKey::Tab, ctrl: true, shift: Some(true), action: Shortcut::PrevTab },
        ShortcutRule { key: ShortcutKey::Z, ctrl: true, shift: Some(true), action: Shortcut::Redo },
        ShortcutRule { key: ShortcutKey::Z, ctrl: true, shift: Some(false), action: Shortcut::Undo },
        ShortcutRule { key: ShortcutKey::Y, ctrl: true, shift: None, action: Shortcut::Redo },
        ShortcutRule { key: ShortcutKey::S, ctrl: true, shift: Some(false), action: Shortcut::Save },
        ShortcutRule { key: ShortcutKey::O, ctrl: true, shift: Some(false), action: Shortcut::Open },
        ShortcutRule { key: ShortcutKey::N, ctrl: true, shift: Some(false), action: Shortcut::New },
        ShortcutRule { key: ShortcutKey::T, ctrl: true, shift: None, action: Shortcut::NewTab },
        ShortcutRule { key: ShortcutKey::W, ctrl: true, shift: None, action: Shortcut::CloseTab },
        ShortcutRule { key: ShortcutKey::Tab, ctrl: true, shift: Some(false), action: Shortcut::NextTab },
        ShortcutRule { key: ShortcutKey::Comma, ctrl: true, shift: None, action: Shortcut::OpenSettings },
        ShortcutRule { key: ShortcutKey::F, ctrl: true, shift: Some(false), action: Shortcut::OpenFind },
        ShortcutRule { key: ShortcutKey::H, ctrl: true, shift: None, action: Shortcut::OpenFindReplace },
        ShortcutRule { key: ShortcutKey::F1, ctrl: false, shift: None, action: Shortcut::OpenAbout },
        ShortcutRule { key: ShortcutKey::F3, ctrl: false, shift: Some(false), action: Shortcut::FindNext },
        ShortcutRule { key: ShortcutKey::F3, ctrl: false, shift: Some(true), action: Shortcut::FindPrev },
        ShortcutRule { key: ShortcutKey::B, ctrl: true, shift: Some(true), action: Shortcut::Format(FormatCommand::BulletList) },
        ShortcutRule { key: ShortcutKey::N, ctrl: true, shift: Some(true), action: Shortcut::Format(FormatCommand::NumberedList) },
        ShortcutRule { key: ShortcutKey::O, ctrl: true, shift: Some(true), action: Shortcut::ToggleOutline },
        ShortcutRule { key: ShortcutKey::B, ctrl: true, shift: Some(false), action: Shortcut::ToggleFileTree },
        ShortcutRule { key: ShortcutKey::P, ctrl: true, shift: Some(false), action: Shortcut::QuickOpen },
        ShortcutRule { key: ShortcutKey::F, ctrl: true, shift: Some(true), action: Shortcut::SearchInFiles },
        ShortcutRule { key: ShortcutKey::E, ctrl: true, shift: Some(true), action: Shortcut::ExportHtml },
        ShortcutRule { key: ShortcutKey::C, ctrl: true, shift: Some(true), action: Shortcut::Format(FormatCommand::CodeBlock) },
        ShortcutRule { key: ShortcutKey::K, ctrl: true, shift: Some(true), action: Shortcut::Format(FormatCommand::Image) },
        ShortcutRule { key: ShortcutKey::B, ctrl: true, shift: Some(false), action: Shortcut::Format(FormatCommand::Bold) },
        ShortcutRule { key: ShortcutKey::I, ctrl: true, shift: Some(false), action: Shortcut::Format(FormatCommand::Italic) },
        ShortcutRule { key: ShortcutKey::K, ctrl: true, shift: Some(false), action: Shortcut::Format(FormatCommand::Link) },
        ShortcutRule { key: ShortcutKey::Q, ctrl: true, shift: None, action: Shortcut::Format(FormatCommand::Blockquote) },
        ShortcutRule { key: ShortcutKey::Backtick, ctrl: true, shift: None, action: Shortcut::Format(FormatCommand::InlineCode) },
        ShortcutRule { key: ShortcutKey::Num1, ctrl: true, shift: Some(false), action: Shortcut::Format(FormatCommand::Heading(1)) },
        ShortcutRule { key: ShortcutKey::Num2, ctrl: true, shift: Some(false), action: Shortcut::Format(FormatCommand::Heading(2)) },
        ShortcutRule { key: ShortcutKey::Num3, ctrl: true, shift: Some(false), action: Shortcut::Format(FormatCommand::Heading(3)) },
        ShortcutRule { key: ShortcutKey::Num4, ctrl: true, shift: Some(false), action: Shortcut::Format(FormatCommand::Heading(4)) },
        ShortcutRule { key: ShortcutKey::Num5, ctrl: true, shift: Some(false), action: Shortcut::Format(FormatCommand::Heading(5)) },
        ShortcutRule { key: ShortcutKey::Num6, ctrl: true, shift: Some(false), action: Shortcut::Format(FormatCommand::Heading(6)) },
        ShortcutRule { key: ShortcutKey::Escape, ctrl: false, shift: None, action: Shortcut::CloseFindPanel }
    ];
    assert(r@ =~= shortcut_table());
    r
}

fn is_pressed(pressed: &[ShortcutKey], k: ShortcutKey) -> (r: bool)
    ensures
        r == pressed@.contains(k),
{
    let mut i: usize = 0;
    while i < pressed.len()
        invariant
            i <= pressed@.len(),
            forall|j: int| 0 <= j < i ==> pressed@[j] != k,
        decreases pressed@.len() - i,
    {
        if pressed[i] == k {
            assert(pressed@[i as int] == k);
            return true;
        }
        i = i + 1;
    }
    false
}

/// The command that this frame's key presses ask for: the first rule of the
/// table whose key is pressed and whose modifiers are held; `None` when no
/// rule applies.
pub fn shortcut_for(ctrl: bool, shift: bool, pressed: &[ShortcutKey]) -> (r: Option<Shortcut>)
    ensures
        r == spec_shortcut(ctrl, shift, pressed@),
{
    let rules = shortcut_rules();
    let mut i: usize = 0;
    while i < rules.len()
        invariant
            i <= rules@.len(),
            rules@ == shortcut_table(),
            first_match(rules@, i as int, ctrl, shift, pressed@) == spec_shortcut(ctrl, shift, pressed@),
        decreases rules@.len() - i,
    {
        let rule = rules[i];
        let shift_ok = match rule.shift {
            Some(s) => shift == s,
            None => true,
        };
        if is_pressed(pressed, rule.key) && (!rule.ctrl || ctrl) && shift_ok {
            return Some(rule.action);
        }
        i = i + 1;
    }
    None
}

proof fn lemma_first_match_rule(rules: Seq<ShortcutRule>, i: int, ctrl: bool, shift: bool, pressed: Seq<ShortcutKey>)
    requires
        0 <= i,
    ensures
        first_match(rules, i, ctrl, shift, pressed) matches Some(a) ==> exists|j: int|
            i <= j < rules.len() && rule_matches(#[trigger] rules[j], ctrl, shift, pressed) && rules[j].action == a,
    decreases rules.len() - i,
{
    if i < rules.len() && !rule_matches(rules[i], ctrl, shift, pressed) {
        lemma_first_match_rule(rules, i + 1, ctrl, shift, pressed);
    }
}

/// Without Ctrl only F1 (about), F3 / Shift+F3 (find next / previous) and
/// Escape (close the find panel) do anything.
pub proof fn law_plain_keys_only_navigate(shift: bool, pressed: Seq<ShortcutKey>)
    ensures
        spec_shortcut(false, shift, pressed) matches Some(a) ==> a == Shortcut::OpenAbout || a == Shortcut::FindNext
            || a == Shortcut::FindPrev || a == Shortcut::CloseFindPanel,
{
    let t = shortcut_table();
    lemma_first_match_rule(t, 0, false, shift, pressed);
    assert forall|j: int| 0 <= j < t.len() && !t[j].ctrl implies t[j].action == Shortcut::OpenAbout
        || t[j].action == Shortcut::FindNext || t[j].action == Shortcut::FindPrev
        || t[j].action == Shortcut::CloseFindPanel by {
        assert(j == 16 || j == 17 || j == 18 || j == 39);
    }
}

} // verus!
