//! Rendered-mode edit session: which block of the document is being edited,
//! the edit buffer of each block, and when a buffer is written back.
//!
//! Writing a buffer back to the document is the caller's: the operations that
//! may commit return the block and buffer to write, in the state it had when
//! the commit was decided.
use vstd::prelude::*;
use crate::text::{chars_of, eq};

verus! {

/// Stable identity of a rendered block: its 1-indexed source line and kind.
#[derive(Debug, Clone, Copy, PartialEq, Eq, Hash, Structural)]
pub enum BlockRef {
    Heading { line: usize, structural: bool },
    Paragraph { line: usize },
    ListItem { line: usize, item: u32 },
    FormattedParagraph { line: usize, structural: bool },
    FormattedListItem { line: usize, item: u32, structural: bool },
    TableCell { table_line: usize, row: usize, col: usize },
}

/// One-shot focus and caret request applied when the block next renders.
#[derive(Debug, Clone, Copy, PartialEq, Eq, Structural)]
pub struct PendingActivation {
    pub cursor_char_index: Option<usize>,
    pub request_focus: bool,
}

impl Default for PendingActivation {
    fn default() -> (r: Self)
        ensures
            r == (PendingActivation { cursor_char_index: None, request_focus: false }),
    {
        PendingActivation { cursor_char_index: None, request_focus: false }
    }
}

/// Edit buffer and mode flags of one block.
#[derive(Debug, Clone, PartialEq)]
pub struct BlockEditState {
    /// The edit buffer (raw markdown for formatted blocks).
    pub text: String,
    /// Formatted blocks: false shows the styled text, true the raw buffer.
    pub formatted_editing: bool,
    pub dirty: bool,
    pub pending_activation: Option<PendingActivation>,
}

/// Whether closing the active block writes its buffer back.
#[derive(Debug, Clone, Copy, PartialEq, Eq, Structural)]
pub enum CommitPolicy {
    SaveIfDirty,
    Discard,
}

/// A block's state as plain values.
pub struct StateView {
    pub text: Seq<char>,
    pub formatted_editing: bool,
    pub dirty: bool,
    pub pending_activation: Option<PendingActivation>,
}

pub open spec fn state_view(s: BlockEditState) -> StateView {
    StateView { text: s.text@, formatted_editing: s.formatted_editing, dirty: s.dirty, pending_activation: s.pending_activation }
}

pub open spec fn default_state() -> StateView {
    StateView { text: seq![], formatted_editing: false, dirty: false, pending_activation: None }
}

impl BlockEditState {
    /// An empty, clean buffer.
    pub fn new() -> (r: Self)
        ensures
            state_view(r) == default_state(),
    {
        BlockEditState { text: String::new(), formatted_editing: false, dirty: false, pending_activation: None }
    }

    /// A copy with the same contents.
    pub fn duplicate(&self) -> (r: Self)
        ensures
            state_view(r) == state_view(*self),
    {
        BlockEditState {
            text: self.text.clone(),
            formatted_editing: self.formatted_editing,
            dirty: self.dirty,
            pending_activation: self.pending_activation,
        }
    }
}

impl Default for BlockEditState {
    fn default() -> (r: Self)
        ensures
            state_view(r) == default_state(),
    {
        BlockEditState::new()
    }
}

/// A buffer to write back to the document: the block and its state at the
/// moment the commit was decided.
#[derive(Debug)]
pub struct CommitRequest {
    pub block: BlockRef,
    pub state: BlockEditState,
}

pub open spec fn commit_view(c: Option<CommitRequest>) -> Option<(BlockRef, StateView)> {
    match c {
        Some(r) => Some((r.block, state_view(r.state))),
        None => None,
    }
}

// ─────────────────────────────────────────────────────────────────────────────
// The session model
// ─────────────────────────────────────────────────────────────────────────────

/// The map an association list with distinct keys stands for.
pub open spec fn pairs_map(s: Seq<(BlockRef, StateView)>) -> Map<BlockRef, StateView>
    decreases s.len(),
{
    if s.len() == 0 {
        Map::empty()
    } else {
        pairs_map(s.drop_last()).insert(s.last().0, s.last().1)
    }
}

pub open spec fn keys_distinct(s: Seq<(BlockRef, StateView)>) -> bool {
    forall|i: int, j: int| 0 <= i < j < s.len() ==> (#[trigger] s[i]).0 != (#[trigger] s[j]).0
}

/// The state of `b`, or a fresh one when it has none yet.
pub open spec fn state_or_default(m: Map<BlockRef, StateView>, b: BlockRef) -> StateView {
    if m.contains_key(b) {
        m[b]
    } else {
        default_state()
    }
}

/// Closing the active block under `policy`: nothing is active afterwards; its
/// state (if it has one) leaves raw editing, and is committed when dirty under
/// `SaveIfDirty`, becoming clean; `Discard` makes it clean without a commit.
pub open spec fn spec_close(
    active: Option<BlockRef>,
    m: Map<BlockRef, StateView>,
    policy: CommitPolicy,
) -> (Map<BlockRef, StateView>, Option<(BlockRef, StateView)>) {
    match active {
        None => (m, None),
        Some(a) => if m.contains_key(a) {
            let s1 = StateView { formatted_editing: false, ..m[a] };
            match policy {
                CommitPolicy::SaveIfDirty => if s1.dirty {
                    (m.insert(a, StateView { dirty: false, ..s1 }), Some((a, s1)))
                } else {
                    (m.insert(a, s1), None)
                },
                CommitPolicy::Discard => (m.insert(a, StateView { dirty: false, ..s1 }), None),
            }
        } else {
            (m, None)
        },
    }
}

/// Switching to `b`: re-activating the active block only replaces its pending
/// activation; otherwise the active block is closed (committing if dirty), `b`
/// becomes active and gets the activation.
pub open spec fn spec_switch(
    active: Option<BlockRef>,
    m: Map<BlockRef, StateView>,
    b: BlockRef,
    act: PendingActivation,
) -> (Map<BlockRef, StateView>, Option<(BlockRef, StateView)>) {
    if active == Some(b) {
        (m.insert(b, StateView { pending_activation: Some(act), ..state_or_default(m, b) }), None)
    } else {
        let (m1, c) = spec_close(active, m, CommitPolicy::SaveIfDirty);
        (m1.insert(b, StateView { pending_activation: Some(act), ..state_or_default(m1, b) }), c)
    }
}

proof fn lemma_pairs_map_index(s: Seq<(BlockRef, StateView)>, i: int)
    requires
        keys_distinct(s),
        0 <= i < s.len(),
    ensures
        pairs_map(s).contains_key(s[i].0),
        pairs_map(s)[s[i].0] == s[i].1,
    decreases s.len(),
{
    if i < s.len() - 1 {
        lemma_pairs_map_index(s.drop_last(), i);
        assert(s.last().0 != s[i].0);
    }
}

proof fn lemma_pairs_map_absent(s: Seq<(BlockRef, StateView)>, k: BlockRef)
    requires
        forall|i: int| 0 <= i < s.len() ==> (#[trigger] s[i]).0 != k,
    ensures
        !pairs_map(s).contains_key(k),
    decreases s.len(),
{
    if s.len() > 0 {
        lemma_pairs_map_absent(s.drop_last(), k);
    }
}

proof fn lemma_pairs_map_update(s: Seq<(BlockRef, StateView)>, i: int, v: StateView)
    requires
        keys_distinct(s),
        0 <= i < s.len(),
    ensures
        pairs_map(s.update(i, (s[i].0, v))) == pairs_map(s).insert(s[i].0, v),
        keys_distinct(s.update(i, (s[i].0, v))),
    decreases s.len(),
{
    let t = s.update(i, (s[i].0, v));
    if i == s.len() - 1 {
        assert(t.drop_last() =~= s.drop_last());
        if s.len() > 1 {
            assert forall|j: int| 0 <= j < s.drop_last().len() implies (#[trigger] s.drop_last()[j]).0 != s[i].0 by {
                assert(s[j].0 != s[i].0);
            }
        }
        lemma_pairs_map_absent(s.drop_last(), s[i].0);
        assert(pairs_map(t) =~= pairs_map(s).insert(s[i].0, v));
    } else {
        lemma_pairs_map_update(s.drop_last(), i, v);
        assert(t.drop_last() =~= s.drop_last().update(i, (s[i].0, v)));
        assert(s.last().0 != s[i].0);
        assert(pairs_map(t) =~= pairs_map(s).insert(s[i].0, v));
    }
}

/// Rendered-mode editing coordinator for one editor: at most one active block
/// and an edit buffer per block.
pub struct RenderedEditSession {
    active: Option<BlockRef>,
    blocks: Vec<(BlockRef, BlockEditState)>,
}

impl RenderedEditSession {
    /// The block being edited.
    pub closed spec fn active_block(&self) -> Option<BlockRef> {
        self.active
    }

    pub closed spec fn entries(&self) -> Seq<(BlockRef, StateView)> {
        self.blocks@.map_values(|p: (BlockRef, BlockEditState)| (p.0, state_view(p.1)))
    }

    /// The buffers by block.
    pub closed spec fn blocks_map(&self) -> Map<BlockRef, StateView> {
        pairs_map(self.entries())
    }

    /// Each block has one buffer.
    pub closed spec fn wf(&self) -> bool {
        keys_distinct(self.entries())
    }

    /// A session with nothing active and no buffers.
    pub fn new() -> (r: Self)
        ensures
            r.wf(),
            r.active_block() is None,
            r.blocks_map() == Map::<BlockRef, StateView>::empty(),
    {
        let r = RenderedEditSession { active: None, blocks: Vec::new() };
        assert(r.entries() =~= Seq::<(BlockRef, StateView)>::empty());
        r
    }

    /// The block being edited, if any.
    pub fn active(&self) -> (r: Option<BlockRef>)
        ensures
            r == self.active_block(),
    {
        self.active
    }

    /// Makes `b` the block being edited (or none), leaving every buffer as it is.
    pub fn set_active(&mut self, b: Option<BlockRef>)
        ensures
            final(self).active_block() == b,
            final(self).blocks_map() == old(self).blocks_map(),
            final(self).wf() == old(self).wf(),
    {
        self.active = b;
    }

    /// Number of blocks with a buffer.
    pub fn len(&self) -> (r: usize)
        requires
            self.wf(),
        ensures
            r == self.blocks_map().dom().len(),
    {
        proof {
            self.lemma_dom_len(self.entries());
        }
        self.blocks.len()
    }

    proof fn lemma_dom_len(&self, s: Seq<(BlockRef, StateView)>)
        requires
            keys_distinct(s),
        ensures
            pairs_map(s).dom().finite(),
            pairs_map(s).dom().len() == s.len(),
        decreases s.len(),
    {
        if s.len() > 0 {
            let p = s.drop_last();
            assert(keys_distinct(p));
            self.lemma_dom_len(p);
            assert forall|j: int| 0 <= j < p.len() implies (#[trigger] p[j]).0 != s.last().0 by {
                assert(s[j].0 != s[s.len() - 1].0);
            }
            lemma_pairs_map_absent(p, s.last().0);
        }
    }

    fn find(&self, b: BlockRef) -> (r: Option<usize>)
        requires
            self.wf(),
        ensures
            match r {
                Some(i) => i < self.blocks@.len() && self.blocks@[i as int].0 == b && self.blocks_map().contains_key(b)
                    && self.blocks_map()[b] == state_view(self.blocks@[i as int].1),
                None => !self.blocks_map().contains_key(b),
            },
    {
        let ghost es = self.entries();
        let mut i: usize = 0;
        while i < self.blocks.len()
            invariant
                i <= self.blocks@.len(),
                es == self.entries(),
                keys_distinct(es),
                forall|j: int| 0 <= j < i ==> (#[trigger] es[j]).0 != b,
            decreases self.blocks@.len() - i,
        {
            assert(es[i as int] == (self.blocks@[i as int].0, state_view(self.blocks@[i as int].1)));
            if self.blocks[i].0 == b {
                proof {
                    lemma_pairs_map_index(es, i as int);
                }
                return Some(i);
            }
            i = i + 1;
        }
        proof {
            lemma_pairs_map_absent(es, b);
        }
        None
    }

    /// The buffer of `b`, if it has one.
    pub fn block(&self, b: BlockRef) -> (r: Option<&BlockEditState>)
        requires
            self.wf(),
        ensures
            match r {
                Some(s) => self.blocks_map().contains_key(b) && self.blocks_map()[b] == state_view(*s),
                None => !self.blocks_map().contains_key(b),
            },
    {
        match self.find(b) {
            Some(i) => Some(&self.blocks[i].1),
            None => None,
        }
    }

    /// Sets the buffer of `b`.
    pub fn insert_block(&mut self, b: BlockRef, state: BlockEditState)
        requires
            old(self).wf(),
        ensures
            final(self).wf(),
            final(self).active_block() == old(self).active_block(),
            final(self).blocks_map() == old(self).blocks_map().insert(b, state_view(state)),
    {
        let ghost es = self.entries();
        let ghost sv = state_view(state);
        match self.find(b) {
            Some(i) => {
                self.blocks.set(i, (b, state));
                proof {
                    lemma_pairs_map_update(es, i as int, sv);
                    assert(self.entries() =~= es.update(i as int, (es[i as int].0, sv)));
                }
            },
            None => {
                let ghost before = self.blocks@;
                self.blocks.push((b, state));
                proof {
                    assert(self.blocks@ =~= before.push((b, state)));
                    assert(self.entries() =~= es.push((b, sv)));
                    assert(self.entries().drop_last() =~= es);
                    assert forall|j: int| 0 <= j < es.len() implies (#[trigger] es[j]).0 != b by {
                        if es[j].0 == b {
                            lemma_pairs_map_index(es, j);
                        }
                    }
                }
            },
        }
    }

    /// The buffer of `b` as a copy, or a fresh one.
    fn state_or_new(&self, b: BlockRef) -> (r: BlockEditState)
        requires
            self.wf(),
        ensures
            state_view(r) == state_or_default(self.blocks_map(), b),
    {
        match self.block(b) {
            Some(s) => s.duplicate(),
            None => BlockEditState::new(),
        }
    }

    /// Updates the buffer of `b` with new text (without writing the document)
    /// and marks it dirty.
    pub fn on_text_changed(&mut self, b: BlockRef, new_text: String)
        requires
            old(self).wf(),
        ensures
            final(self).wf(),
            final(self).active_block() == old(self).active_block(),
            final(self).blocks_map() == old(self).blocks_map().insert(
                b,
                StateView { text: new_text@, dirty: true, ..state_or_default(old(self).blocks_map(), b) },
            ),
    {
        let mut s = self.state_or_new(b);
        s.text = new_text;
        s.dirty = true;
        self.insert_block(b, s);
    }

    /// Closes the active block under `policy`; returns the buffer to write back
    /// when it is committed.
    pub fn close_active(&mut self, policy: CommitPolicy) -> (r: Option<CommitRequest>)
        requires
            old(self).wf(),
        ensures
            final(self).wf(),
            final(self).active_block() is None,
            (final(self).blocks_map(), commit_view(r)) == spec_close(old(self).active_block(), old(self).blocks_map(), policy),
    {
        let a = match self.active {
            Some(a) => a,
            None => {
                return None;
            },
        };
        self.active = None;
        let mut s = match self.block(a) {
            Some(s) => s.duplicate(),
            None => {
                return None;
            },
        };
        s.formatted_editing = false;
        match policy {
            CommitPolicy::SaveIfDirty => {
                if s.dirty {
                    let committed = s.duplicate();
                    s.dirty = false;
                    self.insert_block(a, s);
                    Some(CommitRequest { block: a, state: committed })
                } else {
                    self.insert_block(a, s);
                    None
                }
            },
            CommitPolicy::Discard => {
                s.dirty = false;
                self.insert_block(a, s);
                None
            },
        }
    }

    /// Makes `b` the active block with `activation` pending; closing the
    /// previous active block may return a buffer to write back.
    pub fn switch_to(&mut self, b: BlockRef, activation: PendingActivation) -> (r: Option<CommitRequest>)
        requires
            old(self).wf(),
        ensures
            final(self).wf(),
            final(self).active_block() == Some(b),
            (final(self).blocks_map(), commit_view(r)) == spec_switch(old(self).active_block(), old(self).blocks_map(), b, activation),
    {
        if self.active == Some(b) {
            let mut s = self.state_or_new(b);
            s.pending_activation = Some(activation);
            self.insert_block(b, s);
            return None;
        }
        let c = self.close_active(CommitPolicy::SaveIfDirty);
        self.active = Some(b);
        let mut s = self.state_or_new(b);
        s.pending_activation = Some(activation);
        self.insert_block(b, s);
        c
    }

    /// Writes the active block back when it is dirty; it becomes clean.
    pub fn commit_active(&mut self) -> (r: Option<CommitRequest>)
        requires
            old(self).wf(),
        ensures
            final(self).wf(),
            final(self).active_block() == old(self).active_block(),
            match old(self).active_block() {
                Some(a) => if old(self).blocks_map().contains_key(a) && old(self).blocks_map()[a].dirty {
                    commit_view(r) == Some((a, old(self).blocks_map()[a]))
                        && final(self).blocks_map() == old(self).blocks_map().insert(a, StateView { dirty: false, ..old(self).blocks_map()[a] })
                } else {
                    r is None && final(self).blocks_map() == old(self).blocks_map()
                },
                None => r is None && final(self).blocks_map() == old(self).blocks_map(),
            },
    {
        let a = match self.active {
            Some(a) => a,
            None => {
                return None;
            },
        };
        let mut s = match self.block(a) {
            Some(s) => s.duplicate(),
            None => {
                return None;
            },
        };
        if !s.dirty {
            return None;
        }
        let committed = s.duplicate();
        s.dirty = false;
        self.insert_block(a, s);
        Some(CommitRequest { block: a, state: committed })
    }

    /// Replaces the active block's buffer with `reloaded` (its content reloaded
    /// from the document), clean and out of raw editing; the block stays active.
    pub fn discard_active(&mut self, reloaded: BlockEditState)
        requires
            old(self).wf(),
        ensures
            final(self).wf(),
            final(self).active_block() == old(self).active_block(),
            match old(self).active_block() {
                Some(a) => if old(self).blocks_map().contains_key(a) {
                    final(self).blocks_map() == old(self).blocks_map().insert(
                        a,
                        StateView { dirty: false, formatted_editing: false, ..state_view(reloaded) },
                    )
                } else {
                    final(self).blocks_map() == old(self).blocks_map()
                },
                None => final(self).blocks_map() == old(self).blocks_map(),
            },
    {
        let a = match self.active {
            Some(a) => a,
            None => {
                return;
            },
        };
        if self.find(a).is_none() {
            return;
        }
        let mut s = reloaded;
        s.dirty = false;
        s.formatted_editing = false;
        self.insert_block(a, s);
    }

    /// Drops every buffer and the active block (the document changed underneath).
    pub fn invalidate_buffers(&mut self)
        ensures
            final(self).wf(),
            final(self).active_block() is None,
            final(self).blocks_map() == Map::<BlockRef, StateView>::empty(),
    {
        self.active = None;
        self.blocks = Vec::new();
        assert(self.entries() =~= Seq::<(BlockRef, StateView)>::empty());
    }

    /// Makes sure `b` has a buffer and shows its styled display.
    pub fn open_formatted_display(&mut self, b: BlockRef)
        requires
            old(self).wf(),
        ensures
            final(self).wf(),
            final(self).active_block() == old(self).active_block(),
            final(self).blocks_map() == old(self).blocks_map().insert(
                b,
                StateView { formatted_editing: false, ..state_or_default(old(self).blocks_map(), b) },
            ),
    {
        let mut s = self.state_or_new(b);
        s.formatted_editing = false;
        self.insert_block(b, s);
    }

    /// A session loaded for `source_epoch` after being saved at
    /// `stored_epoch`: a different epoch means the document changed, and the
    /// buffers are dropped.
    pub fn refresh_for_epoch(&mut self, stored_epoch: u64, source_epoch: u64)
        requires
            old(self).wf(),
        ensures
            final(self).wf(),
            stored_epoch == source_epoch ==> final(self).active_block() == old(self).active_block()
                && final(self).blocks_map() == old(self).blocks_map(),
            stored_epoch != source_epoch ==> final(self).active_block() is None
                && final(self).blocks_map() == Map::<BlockRef, StateView>::empty(),
    {
        if stored_epoch != source_epoch {
            self.invalidate_buffers();
        }
    }
}

/// The policy a close really uses: while the preview is locked every close
/// discards.
pub fn close_policy_for(preview_locked: bool, policy: CommitPolicy) -> (r: CommitPolicy)
    ensures
        r == (if preview_locked { CommitPolicy::Discard } else { policy }),
{
    if preview_locked {
        CommitPolicy::Discard
    } else {
        policy
    }
}

// ─────────────────────────────────────────────────────────────────────────────
// Laws
// ─────────────────────────────────────────────────────────────────────────────

/// Switching to a block always leaves exactly that block active with its
/// activation pending; a block other than the old active one and the new one
/// keeps its buffer.
pub proof fn law_switch_activates(active: Option<BlockRef>, m: Map<BlockRef, StateView>, b: BlockRef, act: PendingActivation, other: BlockRef)
    ensures
        spec_switch(active, m, b, act).0.contains_key(b),
        spec_switch(active, m, b, act).0[b].pending_activation == Some(act),
        other != b && active != Some(other) ==> (spec_switch(active, m, b, act).0.contains_key(other) == m.contains_key(other)
            && (m.contains_key(other) ==> spec_switch(active, m, b, act).0[other] == m[other])),
{
}

/// A commit is only ever requested for the active block when its buffer is
/// dirty, carries that buffer's text, and leaves the block clean.
pub proof fn law_commit_only_dirty(active: Option<BlockRef>, m: Map<BlockRef, StateView>, policy: CommitPolicy)
    ensures
        spec_close(active, m, policy).1 matches Some((a, s)) ==> active == Some(a) && m.contains_key(a) && m[a].dirty
            && s.text == m[a].text && policy == CommitPolicy::SaveIfDirty && !spec_close(active, m, policy).0[a].dirty,
{
}

/// Closing leaves the closed block clean and out of raw editing, whatever the
/// policy; its text is kept.
pub proof fn law_close_leaves_block_clean(a: BlockRef, m: Map<BlockRef, StateView>, policy: CommitPolicy)
    requires
        m.contains_key(a),
    ensures
        !spec_close(Some(a), m, policy).0[a].dirty,
        !spec_close(Some(a), m, policy).0[a].formatted_editing,
        spec_close(Some(a), m, policy).0[a].text == m[a].text,
{
}

/// Re-activating the active block never commits.
pub proof fn law_reactivation_never_commits(b: BlockRef, m: Map<BlockRef, StateView>, act: PendingActivation)
    ensures
        spec_switch(Some(b), m, b, act).1 is None,
{
}

} // verus!
