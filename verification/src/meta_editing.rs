use vstd::prelude::*;
use std::collections::VecDeque;
use crate::midi_types::{MIDITick, MetaEvent};
use crate::actions::{EditorAction, EditorActions, ActionView, inverse_view};
use crate::bar_cacher::BarCacher;

verus! {

/// The binary search for `tick` between `low` and `high`: halves the range,
/// going right past every event at or before `tick`.
pub open spec fn meta_search(metas: Seq<MetaEvent>, tick: MIDITick, low: int, high: int) -> int
    decreases high - low,
{
    if low >= high || high > metas.len() || low < 0 {
        low
    } else {
        let mid = (low + high) / 2;
        if metas[mid].tick <= tick {
            meta_search(metas, tick, mid + 1, high)
        } else {
            meta_search(metas, tick, low, mid)
        }
    }
}

/// The events are in ascending order of tick.
pub open spec fn metas_sorted(metas: Seq<MetaEvent>) -> bool {
    forall|i: int, j: int| 0 <= i <= j < metas.len() ==> metas[i].tick <= metas[j].tick
}

proof fn lemma_meta_search(metas: Seq<MetaEvent>, tick: MIDITick, low: int, high: int)
    requires
        0 <= low <= high <= metas.len(),
    ensures
        low <= meta_search(metas, tick, low, high) <= high,
        metas_sorted(metas) && (forall|i: int| 0 <= i < low ==> #[trigger] metas[i].tick <= tick) && (forall|i: int|
            high <= i < metas.len() ==> #[trigger] metas[i].tick > tick) ==> {
            let r = meta_search(metas, tick, low, high);
            &&& forall|i: int| 0 <= i < r ==> #[trigger] metas[i].tick <= tick
            &&& forall|i: int| r <= i < metas.len() ==> #[trigger] metas[i].tick > tick
        },
    decreases high - low,
{
    if low < high {
        let mid = (low + high) / 2;
        if metas[mid].tick <= tick {
            lemma_meta_search(metas, tick, mid + 1, high);
        } else {
            lemma_meta_search(metas, tick, low, mid);
        }
    }
}

/// Deleting the events at `ids[k..]`, last id first; each deleted event goes
/// on top of the stack of deleted events. `None` where an id is out of range.
pub open spec fn delete_metas_from(metas: Seq<MetaEvent>, deleted: Seq<MetaEvent>, ids: Seq<usize>, k: int) -> Option<
    (Seq<MetaEvent>, Seq<MetaEvent>),
>
    decreases ids.len() - k,
{
    if k < 0 || k >= ids.len() {
        Some((metas, deleted))
    } else {
        match delete_metas_from(metas, deleted, ids, k + 1) {
            Some((m, d)) => if (ids[k] as int) < m.len() {
                Some((m.remove(ids[k] as int), d.push(m[ids[k] as int])))
            } else {
                None
            },
            None => None,
        }
    }
}

/// Putting back deleted events at the first `k` ids, first id first, each
/// taken from the top of the stack of deleted events. `None` where the stack
/// runs out or an id is past the end.
pub open spec fn restore_metas(metas: Seq<MetaEvent>, deleted: Seq<MetaEvent>, ids: Seq<usize>, k: int) -> Option<
    (Seq<MetaEvent>, Seq<MetaEvent>),
>
    decreases k,
{
    if k <= 0 {
        Some((metas, deleted))
    } else {
        match restore_metas(metas, deleted, ids, k - 1) {
            Some((m, d)) => if d.len() > 0 && (ids[k - 1] as int) <= m.len() {
                Some((m.insert(ids[k - 1] as int, d.last()), d.drop_last()))
            } else {
                None
            },
            None => None,
        }
    }
}

/// Applying a meta action to the events and the stack of deleted events.
pub open spec fn meta_action_spec(metas: Seq<MetaEvent>, deleted: Seq<MetaEvent>, a: ActionView) -> Option<
    (Seq<MetaEvent>, Seq<MetaEvent>),
> {
    match a {
        ActionView::AddMeta(ids) => restore_metas(metas, deleted, ids, ids.len() as int),
        ActionView::DeleteMeta(ids) => delete_metas_from(metas, deleted, ids, 0),
        _ => Some((metas, deleted)),
    }
}

/// The global meta events (tempo, time and key signatures, ...) and the
/// events deleted by actions, kept so that undoing can put them back.
pub struct MetaEditing {
    pub global_metas: Vec<MetaEvent>,
    pub tmp_del_metas: VecDeque<MetaEvent>,
}

impl MetaEditing {
    /// The deleted events, the latest last.
    pub open spec fn deleted(&self) -> Seq<MetaEvent> {
        self.tmp_del_metas@
    }

    pub fn new(global_metas: Vec<MetaEvent>) -> (r: Self)
        ensures
            r.global_metas@ == global_metas@,
            r.deleted().len() == 0,
    {
        MetaEditing { global_metas, tmp_del_metas: VecDeque::new() }
    }

    /// The position after the last event at or before `tick` (on sorted
    /// events; the binary search's result in any case).
    pub fn bin_search_metas(&self, tick_pos: MIDITick) -> (r: usize)
        ensures
            r == meta_search(self.global_metas@, tick_pos, 0, self.global_metas@.len() as int),
            r <= self.global_metas@.len(),
            metas_sorted(self.global_metas@) ==> {
                &&& forall|i: int| 0 <= i < r ==> #[trigger] self.global_metas@[i].tick <= tick_pos
                &&& forall|i: int| r <= i < self.global_metas@.len() ==> #[trigger] self.global_metas@[i].tick > tick_pos
            },
    {
        let metas = &self.global_metas;
        proof {
            lemma_meta_search(metas@, tick_pos, 0, metas@.len() as int);
        }
        if metas.len() == 0 {
            return 0;
        }
        let mut low: usize = 0;
        let mut high: usize = metas.len();
        while low < high
            invariant
                low <= high <= metas@.len(),
                meta_search(metas@, tick_pos, low as int, high as int) == meta_search(metas@, tick_pos, 0, metas@.len() as int),
            decreases high - low,
        {
            let mid = low + (high - low) / 2;
            assert(mid == (low + high) / 2);
            if metas[mid].tick <= tick_pos {
                low = mid + 1;
            } else {
                high = mid;
            }
        }
        low
    }

    /// Adds `meta_event` at its place by tick and records it; an event of
    /// the same type at the same tick found there has its data replaced
    /// instead (and nothing is recorded). The bar layout is worked out anew.
    pub fn insert_meta_event(&mut self, meta_event: MetaEvent, editor_actions: &mut EditorActions, bar_cacher: &mut BarCacher)
        requires
            old(editor_actions).wf(),
            old(editor_actions).max_actions_spec() > 0,
        ensures
            ({
                let m = old(self).global_metas@;
                let idx = meta_search(m, meta_event.tick, 0, m.len() as int);
                let replace = idx < m.len() && meta_event.tick == m[idx].tick && meta_event.event_type == m[idx].event_type;
                &&& replace ==> final(self).global_metas@ == m.update(idx, meta_event)
                    && *final(editor_actions) == *old(editor_actions)
                &&& !replace ==> final(self).global_metas@ == m.insert(idx, meta_event)
                    && final(editor_actions).registered_from(old(editor_actions), ActionView::AddMeta(seq![idx as usize]))
            }),
            final(self).deleted() == old(self).deleted(),
            final(bar_cacher).bars().len() == 0,
            final(bar_cacher).search_index() == old(bar_cacher).search_index(),
    {
        let tick = meta_event.tick;
        let insert_idx = self.bin_search_metas(tick);
        let replace_meta = if insert_idx < self.global_metas.len() {
            meta_event.tick == self.global_metas[insert_idx].tick && meta_event.event_type
                == self.global_metas[insert_idx].event_type
        } else {
            false
        };
        if replace_meta {
            let mut old_meta = MetaEvent { tick: 0, event_type: meta_event.event_type, data: Vec::new() };
            std::mem::swap(&mut old_meta, &mut self.global_metas[insert_idx]);
            let replaced = MetaEvent { tick: old_meta.tick, event_type: old_meta.event_type, data: meta_event.data };
            self.global_metas.set(insert_idx, replaced);
        } else {
            self.global_metas.insert(insert_idx, meta_event);
            let ids = vec![insert_idx];
            assert(ids@ =~= seq![insert_idx]);
            editor_actions.register_action(EditorAction::AddMeta(ids));
        }
        bar_cacher.clear_cache();
    }

    /// Applies an (already inverted) meta action: deleted events go back in
    /// (`AddMeta`) or events are deleted and kept (`DeleteMeta`); any other
    /// action leaves the events alone. The bar layout is worked out anew
    /// after a meta action.
    pub fn apply_action(&mut self, action: &EditorAction, bar_cacher: &mut BarCacher)
        requires
            meta_action_spec(old(self).global_metas@, old(self).deleted(), action@) is Some,
        ensures
            (final(self).global_metas@, final(self).deleted()) == meta_action_spec(
                old(self).global_metas@,
                old(self).deleted(),
                action@,
            )->0,
            (action@ is AddMeta || action@ is DeleteMeta) ==> final(bar_cacher).bars().len() == 0,
            !(action@ is AddMeta || action@ is DeleteMeta) ==> *final(bar_cacher) == *old(bar_cacher),
            final(bar_cacher).search_index() == old(bar_cacher).search_index(),
    {
        match action {
            EditorAction::AddMeta(meta_ids) => {
                let n = meta_ids.len();
                for k in 0..n
                    invariant
                        n == meta_ids@.len(),
                        meta_action_spec(old(self).global_metas@, old(self).deleted(), action@) is Some,
                        action@ == ActionView::AddMeta(meta_ids@),
                        restore_metas(old(self).global_metas@, old(self).deleted(), meta_ids@, k as int) == Some(
                            (self.global_metas@, self.deleted()),
                        ),
                {
                    proof {
                        lemma_restore_prefix(old(self).global_metas@, old(self).deleted(), meta_ids@, (k + 1) as int, n as int);
                    }
                    let meta = self.tmp_del_metas.pop_back().unwrap();
                    self.global_metas.insert(meta_ids[k], meta);
                }
                bar_cacher.clear_cache();
            },
            EditorAction::DeleteMeta(meta_ids) => {
                let n = meta_ids.len();
                let mut k = n;
                while k > 0
                    invariant
                        k <= n,
                        n == meta_ids@.len(),
                        meta_action_spec(old(self).global_metas@, old(self).deleted(), action@) is Some,
                        action@ == ActionView::DeleteMeta(meta_ids@),
                        delete_metas_from(old(self).global_metas@, old(self).deleted(), meta_ids@, k as int) == Some(
                            (self.global_metas@, self.deleted()),
                        ),
                    decreases k,
                {
                    proof {
                        lemma_delete_suffix(old(self).global_metas@, old(self).deleted(), meta_ids@, (k - 1) as int);
                    }
                    let id = meta_ids[k - 1];
                    let meta = self.global_metas.remove(id);
                    self.tmp_del_metas.push_back(meta);
                    k -= 1;
                }
                bar_cacher.clear_cache();
            },
            _ => {},
        }
    }

    /// The events.
    pub fn get_metas(&self) -> (r: &Vec<MetaEvent>)
        ensures
            r@ == self.global_metas@,
    {
        &self.global_metas
    }
}

proof fn lemma_restore_prefix(metas: Seq<MetaEvent>, deleted: Seq<MetaEvent>, ids: Seq<usize>, k: int, n: int)
    requires
        0 <= k <= n,
        restore_metas(metas, deleted, ids, n) is Some,
    ensures
        restore_metas(metas, deleted, ids, k) is Some,
    decreases n - k,
{
    if k < n {
        lemma_restore_prefix(metas, deleted, ids, k + 1, n);
    }
}

proof fn lemma_delete_suffix(metas: Seq<MetaEvent>, deleted: Seq<MetaEvent>, ids: Seq<usize>, k: int)
    requires
        0 <= k < ids.len(),
        delete_metas_from(metas, deleted, ids, 0) is Some,
    ensures
        delete_metas_from(metas, deleted, ids, k) is Some,
    decreases k,
{
    if k > 0 {
        lemma_delete_suffix(metas, deleted, ids, k - 1);
    }
}

proof fn lemma_restore_undoes_delete(metas: Seq<MetaEvent>, deleted: Seq<MetaEvent>, ids: Seq<usize>, k: int)
    requires
        0 <= k <= ids.len(),
        delete_metas_from(metas, deleted, ids, 0) is Some,
    ensures
        ({
            let s0 = delete_metas_from(metas, deleted, ids, 0)->0;
            restore_metas(s0.0, s0.1, ids, k) == delete_metas_from(metas, deleted, ids, k)
        }),
    decreases k,
{
    if k > 0 {
        lemma_restore_undoes_delete(metas, deleted, ids, k - 1);
        lemma_delete_suffix(metas, deleted, ids, k - 1);
        if k < ids.len() {
            lemma_delete_suffix(metas, deleted, ids, k);
        }
        let x = delete_metas_from(metas, deleted, ids, k)->0;
        let id = ids[k - 1] as int;
        assert(x.0.remove(id).insert(id, x.0[id]) =~= x.0);
        assert(x.1.push(x.0[id]).drop_last() =~= x.1);
    }
}

/// Undoing a deletion of meta events puts them back: applying
/// `DeleteMeta(ids)` and then its inverse gives back the events and the
/// stack of deleted events that were there before.
pub proof fn lemma_delete_metas_then_undo(metas: Seq<MetaEvent>, deleted: Seq<MetaEvent>, ids: Seq<usize>)
    requires
        meta_action_spec(metas, deleted, ActionView::DeleteMeta(ids)) is Some,
    ensures
        ({
            let a = ActionView::DeleteMeta(ids);
            let after = meta_action_spec(metas, deleted, a)->0;
            meta_action_spec(after.0, after.1, inverse_view(a)) == Some((metas, deleted))
        }),
{
    lemma_restore_undoes_delete(metas, deleted, ids, ids.len() as int);
}

/// Undoing the insertion of a meta event takes it out again and keeps it
/// on the stack of deleted events, from where redoing puts it back.
pub proof fn lemma_insert_meta_then_undo(metas: Seq<MetaEvent>, deleted: Seq<MetaEvent>, idx: usize, event: MetaEvent)
    requires
        (idx as int) <= metas.len(),
    ensures
        ({
            let inserted = metas.insert(idx as int, event);
            let undo = inverse_view(ActionView::AddMeta(seq![idx]));
            &&& meta_action_spec(inserted, deleted, undo) == Some((metas, deleted.push(event)))
            &&& meta_action_spec(metas, deleted.push(event), inverse_view(undo)) == Some((inserted, deleted))
        }),
{
    let inserted = metas.insert(idx as int, event);
    let ids = seq![idx];
    assert(inserted.remove(idx as int) =~= metas);
    assert(deleted.push(event).drop_last() =~= deleted);
    assert(inverse_view(ActionView::AddMeta(ids)) == ActionView::DeleteMeta(ids));
    assert(inverse_view(ActionView::DeleteMeta(ids)) == ActionView::AddMeta(ids));
    assert(delete_metas_from(inserted, deleted, ids, 1) == Some((inserted, deleted)));
    assert(delete_metas_from(inserted, deleted, ids, 0) == Some((metas, deleted.push(event))));
    assert(restore_metas(metas, deleted.push(event), ids, 0) == Some((metas, deleted.push(event))));
    assert(restore_metas(metas, deleted.push(event), ids, 1) == Some((inserted, deleted)));
}

} // verus!
