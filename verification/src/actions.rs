use vstd::prelude::*;
use std::collections::VecDeque;
use crate::midi_types::{Note, ChannelEvent, MIDITick, SignedMIDITick};

verus! {

broadcast use vstd::std_specs::vecdeque::group_vec_dequeue_axioms;

/// An entry of the undo/redo history. Undoing or redoing an entry replaces it
/// by its inverse, which the editing components then apply.
pub enum EditorAction {
    /// Notes were placed at the given indices of a track; the notes are only
    /// carried when the entry is being undone or redone.
    PlaceNotes(Vec<usize>, Option<Vec<Note>>, u16),
    /// Notes were deleted from the given indices of a track.
    DeleteNotes(Vec<usize>, Option<Vec<Note>>, u16),
    /// The lengths of the given notes changed by the given amounts.
    LengthChange(Vec<usize>, Vec<SignedMIDITick>, u16),
    VelocityChange(Vec<usize>, Vec<i8>, u16),
    ChannelChange(Vec<usize>, Vec<i8>, u16),
    /// The given notes moved by the given (tick, key) amounts; the flag says
    /// whether the selection follows the notes.
    NotesMove(Vec<usize>, Vec<(SignedMIDITick, i16)>, u16, bool),
    NotesMoveImmediate(Vec<usize>, Vec<(SignedMIDITick, i16)>, u16),
    Select(Vec<usize>, u16),
    Deselect(Vec<usize>, u16),
    /// (note ids, paste tick, source track, destination track)
    Duplicate(Vec<usize>, MIDITick, u16, u16),
    AddMeta(Vec<usize>),
    DeleteMeta(Vec<usize>),
    /// A track was added at the given index; the track's contents are only
    /// carried when undoing or redoing. The flag tells whether it is the last track.
    AddTrack(u16, Option<VecDeque<(Vec<Note>, Vec<ChannelEvent>)>>, bool),
    RemoveTrack(u16, Option<VecDeque<(Vec<Note>, Vec<ChannelEvent>)>>, bool),
    SwapTracks(u16, u16),
    /// Several actions done as one.
    Bulk(Vec<EditorAction>),
}

/// The mathematical value of an [`EditorAction`].
pub enum ActionView {
    PlaceNotes(Seq<usize>, Option<Seq<Note>>, u16),
    DeleteNotes(Seq<usize>, Option<Seq<Note>>, u16),
    LengthChange(Seq<usize>, Seq<SignedMIDITick>, u16),
    VelocityChange(Seq<usize>, Seq<i8>, u16),
    ChannelChange(Seq<usize>, Seq<i8>, u16),
    NotesMove(Seq<usize>, Seq<(SignedMIDITick, i16)>, u16, bool),
    NotesMoveImmediate(Seq<usize>, Seq<(SignedMIDITick, i16)>, u16),
    Select(Seq<usize>, u16),
    Deselect(Seq<usize>, u16),
    Duplicate(Seq<usize>, MIDITick, u16, u16),
    AddMeta(Seq<usize>),
    DeleteMeta(Seq<usize>),
    AddTrack(u16, Option<Seq<(Seq<Note>, Seq<ChannelEvent>)>>, bool),
    RemoveTrack(u16, Option<Seq<(Seq<Note>, Seq<ChannelEvent>)>>, bool),
    SwapTracks(u16, u16),
    Bulk(Seq<ActionView>),
}

pub open spec fn notes_opt_view(o: Option<Vec<Note>>) -> Option<Seq<Note>> {
    match o {
        Some(v) => Some(v@),
        None => None,
    }
}

pub open spec fn tracks_opt_view(o: Option<VecDeque<(Vec<Note>, Vec<ChannelEvent>)>>) -> Option<
    Seq<(Seq<Note>, Seq<ChannelEvent>)>,
> {
    match o {
        Some(q) => Some(q@.map_values(|t: (Vec<Note>, Vec<ChannelEvent>)| (t.0@, t.1@))),
        None => None,
    }
}

pub open spec fn action_view(a: EditorAction) -> ActionView
    decreases a,
{
    match a {
        EditorAction::PlaceNotes(i, n, g) => ActionView::PlaceNotes(i@, notes_opt_view(n), g),
        EditorAction::DeleteNotes(i, n, g) => ActionView::DeleteNotes(i@, notes_opt_view(n), g),
        EditorAction::LengthChange(i, d, g) => ActionView::LengthChange(i@, d@, g),
        EditorAction::VelocityChange(i, d, g) => ActionView::VelocityChange(i@, d@, g),
        EditorAction::ChannelChange(i, d, g) => ActionView::ChannelChange(i@, d@, g),
        EditorAction::NotesMove(i, d, g, s) => ActionView::NotesMove(i@, d@, g, s),
        EditorAction::NotesMoveImmediate(i, d, g) => ActionView::NotesMoveImmediate(i@, d@, g),
        EditorAction::Select(i, g) => ActionView::Select(i@, g),
        EditorAction::Deselect(i, g) => ActionView::Deselect(i@, g),
        EditorAction::Duplicate(i, t, s, d) => ActionView::Duplicate(i@, t, s, d),
        EditorAction::AddMeta(i) => ActionView::AddMeta(i@),
        EditorAction::DeleteMeta(i) => ActionView::DeleteMeta(i@),
        EditorAction::AddTrack(t, q, l) => ActionView::AddTrack(t, tracks_opt_view(q), l),
        EditorAction::RemoveTrack(t, q, l) => ActionView::RemoveTrack(t, tracks_opt_view(q), l),
        EditorAction::SwapTracks(a, b) => ActionView::SwapTracks(a, b),
        EditorAction::Bulk(v) => ActionView::Bulk(
            Seq::new(
                v@.len(),
                |k: int|
                    if 0 <= k < v@.len() {
                        action_view(v@[k])
                    } else {
                        ActionView::SwapTracks(0, 0)
                    },
            ),
        ),
    }
}

/// Actions by their views.
pub open spec fn actions_view(v: Seq<EditorAction>) -> Seq<ActionView> {
    Seq::new(v.len(), |k: int| action_view(v[k]))
}

impl View for EditorAction {
    type V = ActionView;

    open spec fn view(&self) -> ActionView {
        action_view(*self)
    }
}

pub open spec fn neg_i32s(s: Seq<i32>) -> Seq<i32> {
    s.map_values(|x: i32| (-x) as i32)
}

pub open spec fn neg_i8s(s: Seq<i8>) -> Seq<i8> {
    s.map_values(|x: i8| (-x) as i8)
}

pub open spec fn neg_pairs(s: Seq<(SignedMIDITick, i16)>) -> Seq<(SignedMIDITick, i16)> {
    s.map_values(|x: (SignedMIDITick, i16)| ((-x.0) as i32, (-x.1) as i16))
}

/// The action that undoes `a`: placing and deleting swap, changes are negated,
/// a duplication becomes the deletion of the copies, and a bulk action becomes
/// the inverses of its parts in reverse order.
pub open spec fn inverse_view(a: ActionView) -> ActionView
    decreases a,
{
    match a {
        ActionView::PlaceNotes(i, n, g) => ActionView::DeleteNotes(i, n, g),
        ActionView::DeleteNotes(i, n, g) => ActionView::PlaceNotes(i, n, g),
        ActionView::LengthChange(i, d, g) => ActionView::LengthChange(i, neg_i32s(d), g),
        ActionView::VelocityChange(i, d, g) => ActionView::VelocityChange(i, neg_i8s(d), g),
        ActionView::ChannelChange(i, d, g) => ActionView::ChannelChange(i, neg_i8s(d), g),
        ActionView::NotesMove(i, d, g, s) => ActionView::NotesMove(i, neg_pairs(d), g, s),
        ActionView::NotesMoveImmediate(i, d, g) => ActionView::NotesMoveImmediate(
            i,
            neg_pairs(d),
            g,
        ),
        ActionView::Select(i, g) => ActionView::Deselect(i, g),
        ActionView::Deselect(i, g) => ActionView::Select(i, g),
        ActionView::Duplicate(i, _, _, g) => ActionView::DeleteNotes(i, None, g),
        ActionView::AddMeta(i) => ActionView::DeleteMeta(i),
        ActionView::DeleteMeta(i) => ActionView::AddMeta(i),
        ActionView::AddTrack(t, q, l) => ActionView::RemoveTrack(t, q, l),
        ActionView::RemoveTrack(t, q, l) => ActionView::AddTrack(t, q, l),
        ActionView::SwapTracks(x, y) => ActionView::SwapTracks(x, y),
        ActionView::Bulk(s) => ActionView::Bulk(
            Seq::new(
                s.len(),
                |k: int|
                    if 0 <= k < s.len() {
                        inverse_view(s[s.len() - 1 - k])
                    } else {
                        ActionView::SwapTracks(0, 0)
                    },
            ),
        ),
    }
}

pub open spec fn pair_negatable(p: (SignedMIDITick, i16)) -> bool {
    p.0 != i32::MIN && p.1 != i16::MIN
}

/// The changes stored in `a` can be negated (none is the smallest value of its type).
pub open spec fn invertible(a: ActionView) -> bool
    decreases a,
{
    match a {
        ActionView::LengthChange(_, d, _) => forall|k: int|
            0 <= k < d.len() ==> #[trigger] d[k] != i32::MIN,
        ActionView::VelocityChange(_, d, _) => forall|k: int|
            0 <= k < d.len() ==> #[trigger] d[k] != i8::MIN,
        ActionView::ChannelChange(_, d, _) => forall|k: int|
            0 <= k < d.len() ==> #[trigger] d[k] != i8::MIN,
        ActionView::NotesMove(_, d, _, _) => forall|k: int|
            0 <= k < d.len() ==> pair_negatable(#[trigger] d[k]),
        ActionView::NotesMoveImmediate(_, d, _) => forall|k: int|
            0 <= k < d.len() ==> pair_negatable(#[trigger] d[k]),
        ActionView::Bulk(s) => forall|k: int| 0 <= k < s.len() ==> invertible(#[trigger] s[k]),
        _ => true,
    }
}

/// `a` holds no duplication (whose inverse forgets the paste position).
pub open spec fn no_duplicate(a: ActionView) -> bool
    decreases a,
{
    match a {
        ActionView::Duplicate(_, _, _, _) => false,
        ActionView::Bulk(s) => forall|k: int| 0 <= k < s.len() ==> no_duplicate(#[trigger] s[k]),
        _ => true,
    }
}

fn negate_i32s(v: Vec<i32>) -> (r: Vec<i32>)
    requires
        forall|k: int| 0 <= k < v@.len() ==> #[trigger] v@[k] != i32::MIN,
    ensures
        r@ == neg_i32s(v@),
{
    let mut r: Vec<i32> = Vec::new();
    let mut k: usize = 0;
    while k < v.len()
        invariant
            k <= v@.len(),
            forall|k: int| 0 <= k < v@.len() ==> #[trigger] v@[k] != i32::MIN,
            r@ =~= neg_i32s(v@.take(k as int)),
        decreases v@.len() - k,
    {
        r.push(-v[k]);
        k += 1;
        proof {
            assert(neg_i32s(v@.take(k as int)) =~= neg_i32s(v@.take(k - 1)).push(
                (-v@[k - 1]) as i32,
            ));
        }
    }
    proof {
        assert(v@.take(k as int) =~= v@);
    }
    r
}

fn negate_i8s(v: Vec<i8>) -> (r: Vec<i8>)
    requires
        forall|k: int| 0 <= k < v@.len() ==> #[trigger] v@[k] != i8::MIN,
    ensures
        r@ == neg_i8s(v@),
{
    let mut r: Vec<i8> = Vec::new();
    let mut k: usize = 0;
    while k < v.len()
        invariant
            k <= v@.len(),
            forall|k: int| 0 <= k < v@.len() ==> #[trigger] v@[k] != i8::MIN,
            r@ =~= neg_i8s(v@.take(k as int)),
        decreases v@.len() - k,
    {
        r.push(-v[k]);
        k += 1;
        proof {
            assert(neg_i8s(v@.take(k as int)) =~= neg_i8s(v@.take(k - 1)).push(
                (-v@[k - 1]) as i8,
            ));
        }
    }
    proof {
        assert(v@.take(k as int) =~= v@);
    }
    r
}

fn negate_pairs(v: Vec<(SignedMIDITick, i16)>) -> (r: Vec<(SignedMIDITick, i16)>)
    requires
        forall|k: int| 0 <= k < v@.len() ==> pair_negatable(#[trigger] v@[k]),
    ensures
        r@ == neg_pairs(v@),
{
    let mut r: Vec<(SignedMIDITick, i16)> = Vec::new();
    let mut k: usize = 0;
    while k < v.len()
        invariant
            k <= v@.len(),
            forall|k: int| 0 <= k < v@.len() ==> pair_negatable(#[trigger] v@[k]),
            r@ =~= neg_pairs(v@.take(k as int)),
        decreases v@.len() - k,
    {
        let (a, b) = v[k];
        r.push((-a, -b));
        k += 1;
        proof {
            assert(neg_pairs(v@.take(k as int)) =~= neg_pairs(v@.take(k - 1)).push(
                ((-v@[k - 1].0) as i32, (-v@[k - 1].1) as i16),
            ));
        }
    }
    proof {
        assert(v@.take(k as int) =~= v@);
    }
    r
}

/// `&mut v[i]` on a `VecDeque` (`IndexMut::index_mut`): a mutable reference
/// to the element at position `i`; writing through it changes that element
/// and nothing else. Trusted as std documents it; `i` must be in range, as
/// the call panics otherwise.
#[verifier::external_body]
fn deque_index_mut<T>(v: &mut VecDeque<T>, i: usize) -> (r: &mut T)
    requires
        (i as int) < old(v)@.len(),
    ensures
        *r == old(v)@[i as int],
        final(v)@ == old(v)@.update(i as int, *final(r)),
{
    &mut v[i]
}

/// The undo/redo history: a bounded list of actions and how many of the
/// latest ones are currently undone.
pub struct EditorActions {
    actions: VecDeque<EditorAction>,
    max_actions: u16,
    undo_depth: u16,
}

impl EditorActions {
    /// The recorded actions, oldest first.
    pub closed spec fn history(&self) -> Seq<ActionView> {
        self.actions@.map_values(|a: EditorAction| a@)
    }

    pub closed spec fn max_actions_spec(&self) -> int {
        self.max_actions as int
    }

    /// How many of the latest actions are currently undone.
    pub closed spec fn undo_depth_spec(&self) -> int {
        self.undo_depth as int
    }

    /// The history holds at most `max_actions` entries and no more are undone
    /// than recorded.
    pub closed spec fn wf(&self) -> bool {
        &&& self.actions@.len() <= self.max_actions
        &&& self.undo_depth <= self.actions@.len()
    }

    /// The index of the entry that the next undo inverts.
    pub open spec fn undo_index(&self) -> int {
        self.history().len() - self.undo_depth_spec() - 1
    }

    /// The index of the entry that the next redo inverts.
    pub open spec fn redo_index(&self) -> int {
        self.history().len() - self.undo_depth_spec()
    }

    /// The history once `a` is recorded: the undone entries are dropped,
    /// then the oldest entry if the history is full, and `a` goes last.
    pub open spec fn history_after_register(&self, a: ActionView) -> Seq<ActionView> {
        let kept = self.history().take(self.history().len() - self.undo_depth_spec());
        if kept.len() == self.max_actions_spec() {
            kept.drop_first().push(a)
        } else {
            kept.push(a)
        }
    }

    /// `self` is `before` with `a` recorded.
    pub open spec fn registered_from(&self, before: &EditorActions, a: ActionView) -> bool {
        &&& self.wf()
        &&& self.history() == before.history_after_register(a)
        &&& self.undo_depth_spec() == 0
        &&& self.max_actions_spec() == before.max_actions_spec()
    }

    pub open spec fn can_undo_spec(&self) -> bool {
        self.undo_depth_spec() < self.history().len()
    }

    pub open spec fn can_redo_spec(&self) -> bool {
        self.undo_depth_spec() != 0
    }

    /// A well-formed history: no more actions undone than recorded, and no
    /// more recorded than the history holds.
    pub proof fn lemma_wf_bounds(&self)
        requires
            self.wf(),
        ensures
            0 <= self.undo_depth_spec() <= self.history().len() <= self.max_actions_spec(),
    {
    }

    /// Undoing and then redoing hands back the action that was recorded and
    /// the history as it was: `after_undo` is any history that undoing
    /// `self` leads to (as [`EditorActions::undo_action`] states it); redoing
    /// from there is possible, inverts the same entry, and that inverse is
    /// the recorded action, so the redo restores the history and the number
    /// of undone actions. The action must hold no duplication (whose inverse
    /// forgets the paste position) and its changes must be negatable.
    pub proof fn lemma_undo_then_redo_history(&self, after_undo: &EditorActions)
        requires
            self.wf(),
            self.can_undo_spec(),
            invertible(self.history()[self.undo_index()]),
            no_duplicate(self.history()[self.undo_index()]),
            after_undo.wf(),
            after_undo.history() == self.history().update(self.undo_index(), inverse_view(self.history()[self.undo_index()])),
            after_undo.undo_depth_spec() == self.undo_depth_spec() + 1,
            after_undo.max_actions_spec() == self.max_actions_spec(),
        ensures
            after_undo.can_redo_spec(),
            after_undo.redo_index() == self.undo_index(),
            invertible(after_undo.history()[after_undo.redo_index()]),
            inverse_view(after_undo.history()[after_undo.redo_index()]) == self.history()[self.undo_index()],
            after_undo.history().update(after_undo.redo_index(), self.history()[self.undo_index()]) == self.history(),
            after_undo.undo_depth_spec() - 1 == self.undo_depth_spec(),
    {
        let i = self.undo_index();
        lemma_inverse_involution(self.history()[i]);
        assert(after_undo.history().update(i, self.history()[i]) =~= self.history());
    }

    pub fn new(max_actions: u16) -> (r: Self)
        ensures
            r.wf(),
            r.history() == Seq::<ActionView>::empty(),
            r.max_actions_spec() == max_actions,
            r.undo_depth_spec() == 0,
    {
        let r = Self { actions: VecDeque::with_capacity(max_actions as usize), max_actions, undo_depth: 0 };
        proof {
            assert(r.history() =~= Seq::<ActionView>::empty());
        }
        r
    }

    /// How many actions the history keeps (none can be recorded when 0).
    pub fn get_max_actions(&self) -> (r: u16)
        ensures
            r == self.max_actions_spec(),
    {
        self.max_actions
    }

    /// Records a new action. Actions that were undone are dropped first; when
    /// the history is full, its oldest entry is dropped.
    pub fn register_action(&mut self, action: EditorAction)
        requires
            old(self).wf(),
            old(self).max_actions_spec() > 0,
        ensures
            final(self).wf(),
            final(self).max_actions_spec() == old(self).max_actions_spec(),
            final(self).undo_depth_spec() == 0,
            final(self).history() == old(self).history_after_register(action@),
    {
        let ghost h0 = self.history();
        while self.undo_depth > 0
            invariant
                self.wf(),
                self.max_actions == old(self).max_actions,
                self.history() == h0.take(self.actions@.len() as int),
                self.actions@.len() <= h0.len(),
                self.actions@.len() - self.undo_depth == h0.len() - old(self).undo_depth_spec(),
                h0 == old(self).history(),
                old(self).wf(),
            decreases self.undo_depth,
        {
            let ghost before = self.actions@;
            let ghost hb = self.history();
            proof {
                assert(before.len() > 0);
            }
            self.actions.pop_back().unwrap();
            self.undo_depth = self.undo_depth - 1;
            proof {
                assert(self.actions@ =~= before.drop_last());
                assert forall|i: int| 0 <= i < self.actions@.len() implies self.history()[i] == h0[i] by {
                    assert(self.history()[i] == self.actions@[i]@);
                    assert(hb[i] == before[i]@);
                    assert(hb[i] == h0[i]);
                }
                assert(self.history() =~= h0.take(self.actions@.len() as int));
            }
        }
        let ghost kept = self.history();
        if self.actions.len() == self.max_actions as usize {
            self.actions.pop_front().unwrap();
            proof {
                assert(self.history() =~= kept.drop_first());
            }
        }
        let ghost before_push = self.history();
        self.actions.push_back(action);
        proof {
            assert(self.history() =~= before_push.push(action@));
        }
    }

    /// Inverts the latest action that is not undone, and hands it out so that
    /// it can be applied; `None` when there is nothing to undo.
    pub fn undo_action(&mut self) -> (r: Option<&mut EditorAction>)
        requires
            old(self).wf(),
            old(self).can_undo_spec() ==> invertible(old(self).history()[old(self).undo_index()]),
        ensures
            !old(self).can_undo_spec() ==> r is None && *final(self) == *old(self),
            old(self).can_undo_spec() ==> {
                &&& r is Some
                &&& (*r->0)@ == inverse_view(old(self).history()[old(self).undo_index()])
                &&& final(self).history() == old(self).history().update(
                    old(self).undo_index(),
                    (*final(r->0))@,
                )
                &&& final(self).undo_depth_spec() == old(self).undo_depth_spec() + 1
                &&& final(self).max_actions_spec() == old(self).max_actions_spec()
                &&& final(self).wf()
            },
    {
        if !self.get_can_undo() {
            return None;
        }
        self.undo_depth = self.undo_depth + 1;
        let idx = self.actions.len() - self.undo_depth as usize;
        let ghost h0 = self.history();
        let action_to_undo = self.actions.remove(idx).unwrap();
        proof {
            assert(action_to_undo@ == h0[idx as int]);
        }
        let inverted = self.invert_action(action_to_undo);
        self.actions.insert(idx, inverted);
        proof {
            assert(self.history() =~= h0.update(idx as int, inverted@));
        }
        Some(deque_index_mut(&mut self.actions, idx))
    }

    /// Inverts back the most recently undone action, and hands it out so that
    /// it can be applied; `None` when there is nothing to redo.
    pub fn redo_action(&mut self) -> (r: Option<&mut EditorAction>)
        requires
            old(self).wf(),
            old(self).can_redo_spec() ==> invertible(old(self).history()[old(self).redo_index()]),
        ensures
            !old(self).can_redo_spec() ==> r is None && *final(self) == *old(self),
            old(self).can_redo_spec() ==> {
                &&& r is Some
                &&& (*r->0)@ == inverse_view(old(self).history()[old(self).redo_index()])
                &&& final(self).history() == old(self).history().update(
                    old(self).redo_index(),
                    (*final(r->0))@,
                )
                &&& final(self).undo_depth_spec() == old(self).undo_depth_spec() - 1
                &&& final(self).max_actions_spec() == old(self).max_actions_spec()
                &&& final(self).wf()
            },
    {
        if !self.get_can_redo() {
            return None;
        }
        let idx = self.actions.len() - self.undo_depth as usize;
        let ghost h0 = self.history();
        let action_to_redo = self.actions.remove(idx).unwrap();
        proof {
            assert(action_to_redo@ == h0[idx as int]);
        }
        let inverted = self.invert_action(action_to_redo);
        self.actions.insert(idx, inverted);
        proof {
            assert(self.history() =~= h0.update(idx as int, inverted@));
        }
        self.undo_depth = self.undo_depth - 1;
        Some(deque_index_mut(&mut self.actions, idx))
    }

    /// Whether there is an action to undo.
    pub fn get_can_undo(&self) -> (r: bool)
        requires
            self.wf(),
        ensures
            r == self.can_undo_spec(),
    {
        if self.actions.len() == 0 || self.undo_depth == self.max_actions || self.undo_depth as usize
            == self.actions.len() {
            false
        } else {
            true
        }
    }

    /// Whether there is an undone action to redo.
    pub fn get_can_redo(&self) -> (r: bool)
        ensures
            r == self.can_redo_spec(),
    {
        if self.undo_depth == 0 {
            false
        } else {
            true
        }
    }

    /// The action that undoes `action` (see [`inverse_view`]); the history
    /// itself is left as it is.
    pub fn invert_action(&mut self, action: EditorAction) -> (r: EditorAction)
        requires
            invertible(action@),
        ensures
            r@ == inverse_view(action@),
            *final(self) == *old(self),
        decreases action,
    {
        let ghost a0 = action;
        match action {
            EditorAction::PlaceNotes(i, n, g) => EditorAction::DeleteNotes(i, n, g),
            EditorAction::DeleteNotes(i, n, g) => EditorAction::PlaceNotes(i, n, g),
            EditorAction::LengthChange(i, d, g) => EditorAction::LengthChange(i, negate_i32s(d), g),
            EditorAction::ChannelChange(i, d, g) => EditorAction::ChannelChange(i, negate_i8s(d), g),
            EditorAction::VelocityChange(i, d, g) => EditorAction::VelocityChange(
                i,
                negate_i8s(d),
                g,
            ),
            EditorAction::NotesMove(i, d, g, s) => EditorAction::NotesMove(i, negate_pairs(d), g, s),
            EditorAction::NotesMoveImmediate(i, d, g) => EditorAction::NotesMoveImmediate(
                i,
                negate_pairs(d),
                g,
            ),
            EditorAction::Select(i, g) => EditorAction::Deselect(i, g),
            EditorAction::Deselect(i, g) => EditorAction::Select(i, g),
            EditorAction::Duplicate(i, _, _, g) => EditorAction::DeleteNotes(i, None, g),
            EditorAction::AddMeta(i) => EditorAction::DeleteMeta(i),
            EditorAction::DeleteMeta(i) => EditorAction::AddMeta(i),
            EditorAction::AddTrack(t, q, l) => EditorAction::RemoveTrack(t, q, l),
            EditorAction::RemoveTrack(t, q, l) => EditorAction::AddTrack(t, q, l),
            EditorAction::SwapTracks(x, y) => EditorAction::SwapTracks(x, y),
            EditorAction::Bulk(actions) => {
                let ghost v0 = actions;
                let ghost vv = actions@;
                let mut actions = actions;
                let mut inv_actions: Vec<EditorAction> = Vec::new();
                while actions.len() > 0
                    invariant
                        a0 == EditorAction::Bulk(v0),
                        action == a0,
                        vv == v0@,
                        *self == *old(self),
                        invertible(a0@),
                        actions@.len() <= vv.len(),
                        forall|k: int| 0 <= k < actions@.len() ==> #[trigger] actions@[k] == vv[k],
                        inv_actions@.len() + actions@.len() == vv.len(),
                        forall|k: int|
                            0 <= k < inv_actions@.len() ==> (#[trigger] inv_actions@[k])@
                                == inverse_view(vv[vv.len() - 1 - k]@),
                    decreases actions@.len(),
                {
                    let x = actions.pop().unwrap();
                    proof {
                        let k = actions@.len() as int;
                        assert(decreases_to!(a0 => a0->Bulk_0));
                        assert(a0->Bulk_0 == v0);
                        assert(decreases_to!(v0 => v0@));
                        assert(decreases_to!(vv => vv[k]));
                        assert(x == vv[k]);
                        let s = a0@->Bulk_0;
                        assert(s[k] == action_view(vv[k]));
                        assert(invertible(s[k]));
                        assert(invertible(x@));
                    }
                    let y = self.invert_action(x);
                    inv_actions.push(y);
                }
                let r = EditorAction::Bulk(inv_actions);
                proof {
                    let s = a0@->Bulk_0;
                    assert(s.len() == vv.len());
                    let lhs = r@->Bulk_0;
                    let rhs = inverse_view(a0@)->Bulk_0;
                    assert forall|k: int| 0 <= k < lhs.len() implies lhs[k] == rhs[k] by {
                        assert(lhs[k] == action_view(inv_actions@[k]));
                        assert(s[s.len() - 1 - k] == action_view(vv[vv.len() - 1 - k]));
                    }
                    assert(lhs =~= rhs);
                }
                r
            },
        }
    }

    /// Forgets every recorded action.
    pub fn clear_actions(&mut self)
        ensures
            final(self).wf(),
            final(self).history() == Seq::<ActionView>::empty(),
            final(self).undo_depth_spec() == 0,
            final(self).max_actions_spec() == old(self).max_actions_spec(),
    {
        self.actions.clear();
        self.undo_depth = 0;
        proof {
            assert(self.history() =~= Seq::<ActionView>::empty());
        }
    }
}

impl Default for EditorActions {
    fn default() -> (r: Self)
        ensures
            r.wf(),
            r.history() == Seq::<ActionView>::empty(),
            r.max_actions_spec() == 10,
            r.undo_depth_spec() == 0,
    {
        EditorActions::new(10)
    }
}

/// Inverting an action twice gives back the action (for actions that can be
/// inverted and hold no duplication), and the inverse can itself be inverted.
pub proof fn lemma_inverse_involution(a: ActionView)
    requires
        invertible(a),
        no_duplicate(a),
    ensures
        invertible(inverse_view(a)),
        no_duplicate(inverse_view(a)),
        inverse_view(inverse_view(a)) == a,
    decreases a,
{
    match a {
        ActionView::LengthChange(i, d, g) => {
            assert(neg_i32s(neg_i32s(d)) =~= d);
        },
        ActionView::VelocityChange(i, d, g) => {
            assert(neg_i8s(neg_i8s(d)) =~= d);
        },
        ActionView::ChannelChange(i, d, g) => {
            assert(neg_i8s(neg_i8s(d)) =~= d);
        },
        ActionView::NotesMove(i, d, g, sel) => {
            assert(neg_pairs(neg_pairs(d)) =~= d);
            assert forall|k: int| 0 <= k < d.len() implies pair_negatable(
                #[trigger] neg_pairs(d)[k],
            ) by {
                assert(pair_negatable(d[k]));
            }
        },
        ActionView::NotesMoveImmediate(i, d, g) => {
            assert(neg_pairs(neg_pairs(d)) =~= d);
            assert forall|k: int| 0 <= k < d.len() implies pair_negatable(
                #[trigger] neg_pairs(d)[k],
            ) by {
                assert(pair_negatable(d[k]));
            }
        },
        ActionView::Bulk(s) => {
            let n = s.len();
            let inv1 = inverse_view(a)->Bulk_0;
            assert forall|k: int| 0 <= k < n implies invertible(#[trigger] inv1[k]) && no_duplicate(
                inv1[k],
            ) && inverse_view(inv1[k]) == s[n - 1 - k] by {
                assert(decreases_to!(a => s));
                assert(decreases_to!(s => s[n - 1 - k]));
                lemma_inverse_involution(s[n - 1 - k]);
            }
            let inv2 = inverse_view(inverse_view(a))->Bulk_0;
            assert forall|k: int| 0 <= k < n implies inv2[k] == s[k] by {
                assert(inv2[k] == inverse_view(inv1[n - 1 - k]));
            }
            assert(inv2 =~= s);
        },
        _ => {},
    }
}

/// Undoing the latest action that is not undone and then redoing it gives
/// back the same history (for an action that can be inverted and holds no
/// duplication), with the same number of undone actions.
pub proof fn lemma_undo_then_redo(history: Seq<ActionView>, undo_depth: int)
    requires
        0 <= undo_depth < history.len(),
        invertible(history[history.len() - undo_depth - 1]),
        no_duplicate(history[history.len() - undo_depth - 1]),
    ensures
        ({
            let i = history.len() - undo_depth - 1;
            let after_undo = history.update(i, inverse_view(history[i]));
            let j = after_undo.len() - (undo_depth + 1);
            &&& j == i
            &&& invertible(after_undo[j])
            &&& after_undo.update(j, inverse_view(after_undo[j])) == history
        }),
{
    let i = history.len() - undo_depth - 1;
    lemma_inverse_involution(history[i]);
    let after_undo = history.update(i, inverse_view(history[i]));
    assert(after_undo.update(i, inverse_view(after_undo[i])) =~= history);
}

} // verus!
