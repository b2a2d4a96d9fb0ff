use ferrite::session::{
    close_policy_for, BlockEditState, BlockRef, CommitPolicy, CommitRequest, PendingActivation,
    RenderedEditSession,
};

fn heading(line: usize) -> BlockRef {
    BlockRef::Heading { line, structural: false }
}

fn paragraph(line: usize) -> BlockRef {
    BlockRef::Paragraph { line }
}

fn formatted_paragraph(line: usize) -> BlockRef {
    BlockRef::FormattedParagraph { line, structural: false }
}

fn formatted_list_item(line: usize, item: u32) -> BlockRef {
    BlockRef::FormattedListItem { line, item, structural: false }
}

fn table_cell(table_line: usize, row: usize, col: usize) -> BlockRef {
    BlockRef::TableCell { table_line, row, col }
}

fn texts(commits: &[CommitRequest]) -> Vec<(BlockRef, String)> {
    commits.iter().map(|c| (c.block, c.state.text.clone())).collect()
}

fn set_formatted_editing(session: &mut RenderedEditSession, block: BlockRef) {
    let mut state = session.block(block).expect("state").duplicate();
    state.formatted_editing = true;
    session.insert_block(block, state);
}

#[test]
fn switch_to_dirty_block_commits_on_switch_pure() {
    let mut session = RenderedEditSession::new();
    session.on_text_changed(heading(1), "Hello".to_string());
    session.set_active(Some(heading(1)));

    let commits: Vec<CommitRequest> = session
        .switch_to(heading(2), PendingActivation { cursor_char_index: Some(0), request_focus: true })
        .into_iter()
        .collect();

    assert_eq!(commits.len(), 1);
    assert_eq!(commits[0].block, heading(1));
    assert_eq!(session.active(), Some(heading(2)));
}

#[test]
fn switch_to_dirty_block_commits_on_switch_ui() {
    let mut session = RenderedEditSession::new();
    session.on_text_changed(heading(1), "Hello".to_string());
    session.set_active(Some(heading(1)));

    let commits: Vec<CommitRequest> = session
        .switch_to(heading(2), PendingActivation { cursor_char_index: Some(0), request_focus: true })
        .into_iter()
        .collect();

    assert_eq!(texts(&commits), vec![(heading(1), "Hello".to_string())]);
    assert_eq!(session.active(), Some(heading(2)));
    assert!(session.block(heading(1)).is_some_and(|s| !s.dirty));
}

#[test]
fn preview_locked_blocks_switch_to_ui_and_discards_on_close() {
    let mut session = RenderedEditSession::new();
    session.on_text_changed(heading(1), "Hello".to_string());
    session.set_active(Some(heading(1)));
    let preview_locked = true;

    // A locked preview does not switch blocks at all.
    let mut commits: Vec<CommitRequest> = Vec::new();
    if !preview_locked {
        commits.extend(session.switch_to(heading(2), PendingActivation::default()));
    }
    commits.extend(session.close_active(close_policy_for(preview_locked, CommitPolicy::SaveIfDirty)));

    assert!(commits.is_empty());
    assert_eq!(session.active(), None);
    assert!(session.block(heading(1)).is_some_and(|s| !s.dirty));
}

#[test]
fn switch_to_same_block_updates_pending_activation_only() {
    let mut session = RenderedEditSession::new();
    let first = session.switch_to(heading(3), PendingActivation { cursor_char_index: Some(1), request_focus: true });
    let second = session.switch_to(heading(3), PendingActivation { cursor_char_index: Some(5), request_focus: false });
    assert!(first.is_none() && second.is_none());
    assert_eq!(session.active(), Some(heading(3)));
    let state = session.block(heading(3)).unwrap();
    assert_eq!(
        state.pending_activation,
        Some(PendingActivation { cursor_char_index: Some(5), request_focus: false })
    );
}

#[test]
fn close_active_discard_clears_active_without_commit() {
    let mut session = RenderedEditSession::new();
    session.on_text_changed(paragraph(2), "draft".to_string());
    session.set_active(Some(paragraph(2)));
    let commit = session.close_active(CommitPolicy::Discard);
    assert!(commit.is_none());
    assert_eq!(session.active(), None);
    assert!(session.block(paragraph(2)).is_some_and(|s| !s.dirty));
}

#[test]
fn at_most_one_active_invariant() {
    let mut session = RenderedEditSession::new();
    session.switch_to(heading(1), PendingActivation::default());
    session.switch_to(heading(2), PendingActivation::default());
    session.switch_to(paragraph(10), PendingActivation::default());

    assert_eq!(session.active(), Some(paragraph(10)));
    assert!(session.active().is_some());
    let active_count = session.active().iter().count();
    assert_eq!(active_count, 1);
}

#[test]
fn on_text_changed_marks_dirty() {
    let mut session = RenderedEditSession::new();
    session.on_text_changed(paragraph(4), "x".to_string());
    let state = session.block(paragraph(4)).unwrap();
    assert!(state.dirty);
    assert_eq!(state.text, "x");
}

#[test]
fn session_persists_across_rendered_view_mode_switch() {
    let mut session = RenderedEditSession::new();
    session.set_active(Some(heading(1)));
    session.on_text_changed(heading(1), "draft".to_string());
    session.refresh_for_epoch(0, 0);
    assert_eq!(session.active(), Some(heading(1)));
    assert_eq!(session.block(heading(1)).map(|s| s.text.as_str()), Some("draft"));
}

#[test]
fn rs6_raw_edit_epoch_bump_invalidates_session_buffers() {
    let mut session = RenderedEditSession::new();
    session.set_active(Some(paragraph(3)));
    session.on_text_changed(paragraph(3), "from rendered pane".to_string());
    session.refresh_for_epoch(0, 1);
    assert_eq!(session.active(), None);
    assert_eq!(session.len(), 0);
}

#[test]
fn invalidate_buffers_clears_state() {
    let mut session = RenderedEditSession::new();
    session.set_active(Some(heading(1)));
    session.on_text_changed(heading(1), "a".to_string());
    session.invalidate_buffers();
    assert_eq!(session.active(), None);
    assert_eq!(session.len(), 0);
}

#[test]
fn load_for_epoch_invalidates_when_epoch_changes() {
    let mut session = RenderedEditSession::new();
    session.set_active(Some(paragraph(1)));
    session.on_text_changed(paragraph(1), "draft".to_string());
    session.refresh_for_epoch(0, 0);
    assert_eq!(session.active(), Some(paragraph(1)));
    session.refresh_for_epoch(0, 1);
    assert_eq!(session.active(), None);
    assert_eq!(session.len(), 0);
}

#[test]
fn formatted_editing_flag_resets_on_close() {
    let mut session = RenderedEditSession::new();
    let block = formatted_paragraph(2);
    session.on_text_changed(block, "draft".to_string());
    session.set_active(Some(block));
    set_formatted_editing(&mut session, block);

    let commits: Vec<BlockRef> = session
        .close_active(CommitPolicy::SaveIfDirty)
        .into_iter()
        .map(|c| c.block)
        .collect();

    assert_eq!(commits, vec![block]);
    assert_eq!(session.active(), None);
    let state = session.block(block).expect("state retained");
    assert!(!state.formatted_editing);
    assert!(!state.dirty);
}

#[test]
fn formatted_switch_commits_previous_and_resets_editing_flag() {
    let mut session = RenderedEditSession::new();
    let a = formatted_paragraph(1);
    let b = formatted_list_item(5, 0);
    session.on_text_changed(a, "**bold** text".to_string());
    session.set_active(Some(a));
    set_formatted_editing(&mut session, a);

    let commits: Vec<CommitRequest> = session
        .switch_to(b, PendingActivation { cursor_char_index: Some(3), request_focus: true })
        .into_iter()
        .collect();

    assert_eq!(commits.len(), 1, "previous active block committed");
    assert_eq!(texts(&commits), vec![(a, "**bold** text".to_string())]);
    assert_eq!(session.active(), Some(b));
    assert!(
        !session.block(a).unwrap().formatted_editing,
        "previous formatted_editing flag cleared on close",
    );
}

#[test]
fn formatted_discard_reload_resets_flags_via_reload_fn() {
    let mut session = RenderedEditSession::new();
    let block = formatted_paragraph(7);
    session.on_text_changed(block, "edited draft".to_string());
    session.set_active(Some(block));
    set_formatted_editing(&mut session, block);

    let mut reloaded = session.block(block).unwrap().duplicate();
    reloaded.text = "original source".to_string();
    session.discard_active(reloaded);

    let state = session.block(block).expect("state retained");
    assert_eq!(state.text, "original source");
    assert!(!state.dirty);
    assert!(!state.formatted_editing);
    assert_eq!(session.active(), Some(block));
}

#[test]
fn switch_from_heading_to_table_cell_commits_heading() {
    let mut session = RenderedEditSession::new();
    let h = heading(2);
    session.on_text_changed(h, "Header text".to_string());
    session.set_active(Some(h));

    let commits: Vec<CommitRequest> =
        session.switch_to(table_cell(10, 0, 0), PendingActivation::default()).into_iter().collect();

    assert_eq!(commits.len(), 1, "previous heading must commit on switch");
    assert_eq!(commits[0].block, h);
    assert_eq!(session.active(), Some(table_cell(10, 0, 0)));
}

#[test]
fn switch_from_table_cell_to_heading_invokes_commit_for_cell() {
    let mut session = RenderedEditSession::new();
    let cell = table_cell(7, 1, 2);
    session.set_active(Some(cell));
    let mut state = BlockEditState::default();
    state.dirty = true;
    session.insert_block(cell, state);

    let committed: Vec<BlockRef> = session
        .switch_to(heading(4), PendingActivation::default())
        .into_iter()
        .map(|c| c.block)
        .collect();

    assert_eq!(committed, vec![cell]);
    assert_eq!(session.active(), Some(heading(4)));
}

#[test]
fn intra_table_direct_assign_does_not_fire_commit() {
    let mut session = RenderedEditSession::new();
    let a = table_cell(3, 0, 0);
    let b = table_cell(3, 0, 1);
    session.set_active(Some(a));
    let mut state = BlockEditState::default();
    state.dirty = true;
    session.insert_block(a, state);

    session.set_active(Some(b));

    assert!(session.block(a).unwrap().dirty);
    assert_eq!(session.active(), Some(b));
}

#[test]
fn cross_table_switch_invokes_commit_for_source_cell() {
    let mut session = RenderedEditSession::new();
    let table_a = table_cell(2, 0, 0);
    let table_b = table_cell(20, 0, 0);
    session.set_active(Some(table_a));
    let mut state = BlockEditState::default();
    state.dirty = true;
    session.insert_block(table_a, state);

    let committed: Vec<BlockRef> = session
        .switch_to(table_b, PendingActivation::default())
        .into_iter()
        .map(|c| c.block)
        .collect();

    assert_eq!(committed, vec![table_a]);
    assert_eq!(session.active(), Some(table_b));
}

#[test]
fn invalidate_buffers_clears_active_table_cell() {
    let mut session = RenderedEditSession::new();
    let cell = table_cell(11, 2, 3);
    session.set_active(Some(cell));
    session.insert_block(cell, BlockEditState::default());

    session.invalidate_buffers();

    assert_eq!(session.active(), None);
    assert_eq!(session.len(), 0);
}

#[test]
fn commit_active_writes_dirty_buffer_once() {
    let mut session = RenderedEditSession::new();
    session.switch_to(paragraph(1), PendingActivation::default());
    assert!(session.commit_active().is_none());
    session.on_text_changed(paragraph(1), "new".to_string());
    let c = session.commit_active().expect("dirty buffer committed");
    assert_eq!(c.block, paragraph(1));
    assert_eq!(c.state.text, "new");
    assert!(session.commit_active().is_none());
    assert_eq!(session.active(), Some(paragraph(1)));
}

#[test]
fn open_formatted_display_creates_clean_buffer() {
    let mut session = RenderedEditSession::new();
    let b = formatted_paragraph(9);
    session.open_formatted_display(b);
    let s = session.block(b).unwrap();
    assert!(!s.formatted_editing && !s.dirty && s.text.is_empty());
    assert_eq!(session.len(), 1);
    assert_eq!(close_policy_for(false, CommitPolicy::SaveIfDirty), CommitPolicy::SaveIfDirty);
    assert_eq!(close_policy_for(true, CommitPolicy::SaveIfDirty), CommitPolicy::Discard);
}
