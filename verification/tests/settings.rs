use ferrite::settings::{
    add_recent, sanitize_active_tab_index, sanitize_auto_save_interval, sanitize_max_recent,
    sanitize_tab_size, EditorFont, OutlinePanelSide, Theme, ViewMode,
};

#[test]
fn test_view_mode_toggle() {
    assert_eq!(ViewMode::Raw.toggle(), ViewMode::Rendered);
    assert_eq!(ViewMode::Rendered.toggle(), ViewMode::Raw);
}

#[test]
fn test_view_mode_labels() {
    assert_eq!(ViewMode::Raw.label(), "Raw");
    assert_eq!(ViewMode::Rendered.label(), "Rendered");
    assert_eq!(ViewMode::Raw.icon(), "📝");
    assert_eq!(ViewMode::Rendered.icon(), "👁");
}

#[test]
fn view_mode_toggle_twice_is_identity() {
    for m in [ViewMode::Raw, ViewMode::Rendered] {
        assert_eq!(m.toggle().toggle(), m);
    }
}

#[test]
fn outline_side_toggle_and_labels() {
    assert_eq!(OutlinePanelSide::Left.toggle(), OutlinePanelSide::Right);
    assert_eq!(OutlinePanelSide::Right.toggle(), OutlinePanelSide::Left);
    for s in [OutlinePanelSide::Left, OutlinePanelSide::Right] {
        assert_eq!(s.toggle().toggle(), s);
    }
    assert_eq!(OutlinePanelSide::default(), OutlinePanelSide::Right);
}

#[test]
fn defaults_match_the_documented_ones() {
    assert_eq!(Theme::default(), Theme::Light);
    assert_eq!(ViewMode::default(), ViewMode::Raw);
    assert_eq!(EditorFont::default(), EditorFont::Inter);
}

#[test]
fn editor_fonts_are_listed_with_names() {
    let all = EditorFont::all();
    assert_eq!(all.len(), 2);
    assert_eq!(all[0], EditorFont::Inter);
    assert_eq!(EditorFont::Inter.display_name(), "Inter");
    assert_eq!(EditorFont::JetBrainsMono.display_name(), "JetBrains Mono");
    assert!(!EditorFont::Inter.description().is_empty());
}

#[test]
fn add_recent_moves_entry_to_front_and_trims() {
    let mut list: Vec<String> = vec!["a".into(), "b".into(), "c".into()];
    add_recent(&mut list, "c".into(), 10);
    assert_eq!(list, vec!["c".to_string(), "a".to_string(), "b".to_string()]);
    add_recent(&mut list, "d".into(), 3);
    assert_eq!(list, vec!["d".to_string(), "c".to_string(), "a".to_string()]);
    add_recent(&mut list, "e".into(), 0);
    assert!(list.is_empty());
}

#[test]
fn sanitizers_clamp_integer_settings() {
    assert_eq!(sanitize_tab_size(0), 1);
    assert_eq!(sanitize_tab_size(4), 4);
    assert_eq!(sanitize_tab_size(20), 8);
    assert_eq!(sanitize_max_recent(0), 10);
    assert_eq!(sanitize_max_recent(50), 50);
    assert_eq!(sanitize_max_recent(500), 100);
    assert_eq!(sanitize_auto_save_interval(true, 1), 5);
    assert_eq!(sanitize_auto_save_interval(false, 1), 1);
    assert_eq!(sanitize_auto_save_interval(true, 60), 60);
    assert_eq!(sanitize_active_tab_index(10, 3), 2);
    assert_eq!(sanitize_active_tab_index(1, 3), 1);
    assert_eq!(sanitize_active_tab_index(7, 0), 7);
}

#[test]
fn re_adding_most_recent_entry_changes_nothing() {
    let mut list: Vec<String> = vec!["a".into(), "b".into(), "a".into(), "c".into()];
    add_recent(&mut list, "b".into(), 3);
    let once = list.clone();
    assert_eq!(once, vec!["b".to_string(), "a".to_string(), "a".to_string()]);
    add_recent(&mut list, "b".into(), 3);
    assert_eq!(list, once);
}
