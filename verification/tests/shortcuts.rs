use ferrite::shortcuts::{shortcut_for, FormatCommand, Shortcut, ShortcutKey};

fn ctrl(k: ShortcutKey) -> Option<Shortcut> {
    shortcut_for(true, false, &[k])
}

fn ctrl_shift(k: ShortcutKey) -> Option<Shortcut> {
    shortcut_for(true, true, &[k])
}

#[test]
fn file_and_tab_shortcuts() {
    assert_eq!(ctrl(ShortcutKey::S), Some(Shortcut::Save));
    assert_eq!(ctrl_shift(ShortcutKey::S), Some(Shortcut::SaveAs));
    assert_eq!(ctrl(ShortcutKey::O), Some(Shortcut::Open));
    assert_eq!(ctrl(ShortcutKey::N), Some(Shortcut::New));
    assert_eq!(ctrl(ShortcutKey::T), Some(Shortcut::NewTab));
    assert_eq!(ctrl(ShortcutKey::W), Some(Shortcut::CloseTab));
    assert_eq!(ctrl(ShortcutKey::Tab), Some(Shortcut::NextTab));
    assert_eq!(ctrl_shift(ShortcutKey::Tab), Some(Shortcut::PrevTab));
    assert_eq!(ctrl(ShortcutKey::Comma), Some(Shortcut::OpenSettings));
}

#[test]
fn editing_and_view_shortcuts() {
    assert_eq!(ctrl(ShortcutKey::E), Some(Shortcut::ToggleViewMode));
    assert_eq!(ctrl_shift(ShortcutKey::E), Some(Shortcut::ExportHtml));
    assert_eq!(ctrl_shift(ShortcutKey::T), Some(Shortcut::CycleTheme));
    assert_eq!(ctrl(ShortcutKey::Z), Some(Shortcut::Undo));
    assert_eq!(ctrl_shift(ShortcutKey::Z), Some(Shortcut::Redo));
    assert_eq!(ctrl(ShortcutKey::Y), Some(Shortcut::Redo));
    assert_eq!(ctrl(ShortcutKey::F), Some(Shortcut::OpenFind));
    assert_eq!(ctrl_shift(ShortcutKey::F), Some(Shortcut::SearchInFiles));
    assert_eq!(ctrl(ShortcutKey::H), Some(Shortcut::OpenFindReplace));
    assert_eq!(ctrl_shift(ShortcutKey::O), Some(Shortcut::ToggleOutline));
    assert_eq!(ctrl(ShortcutKey::B), Some(Shortcut::ToggleFileTree));
    assert_eq!(ctrl(ShortcutKey::P), Some(Shortcut::QuickOpen));
}

#[test]
fn formatting_shortcuts() {
    assert_eq!(ctrl_shift(ShortcutKey::B), Some(Shortcut::Format(FormatCommand::BulletList)));
    assert_eq!(ctrl_shift(ShortcutKey::N), Some(Shortcut::Format(FormatCommand::NumberedList)));
    assert_eq!(ctrl_shift(ShortcutKey::C), Some(Shortcut::Format(FormatCommand::CodeBlock)));
    assert_eq!(ctrl_shift(ShortcutKey::K), Some(Shortcut::Format(FormatCommand::Image)));
    assert_eq!(ctrl(ShortcutKey::I), Some(Shortcut::Format(FormatCommand::Italic)));
    assert_eq!(ctrl(ShortcutKey::K), Some(Shortcut::Format(FormatCommand::Link)));
    assert_eq!(ctrl(ShortcutKey::Q), Some(Shortcut::Format(FormatCommand::Blockquote)));
    assert_eq!(ctrl(ShortcutKey::Backtick), Some(Shortcut::Format(FormatCommand::InlineCode)));
    assert_eq!(ctrl(ShortcutKey::Num3), Some(Shortcut::Format(FormatCommand::Heading(3))));
    assert_eq!(ctrl_shift(ShortcutKey::Num3), None);
}

#[test]
fn plain_keys_and_priority() {
    assert_eq!(shortcut_for(false, false, &[ShortcutKey::F1]), Some(Shortcut::OpenAbout));
    assert_eq!(shortcut_for(false, false, &[ShortcutKey::F3]), Some(Shortcut::FindNext));
    assert_eq!(shortcut_for(false, true, &[ShortcutKey::F3]), Some(Shortcut::FindPrev));
    assert_eq!(shortcut_for(false, false, &[ShortcutKey::Escape]), Some(Shortcut::CloseFindPanel));
    assert_eq!(shortcut_for(false, false, &[ShortcutKey::S]), None);
    assert_eq!(shortcut_for(true, false, &[]), None);
    // The table decides between two keys pressed in the same frame.
    assert_eq!(shortcut_for(true, false, &[ShortcutKey::Escape, ShortcutKey::S]), Some(Shortcut::Save));
}
