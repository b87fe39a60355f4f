use vstd::prelude::*;
use crate::error::SyncError;
use crate::kind::EntityKind;
use crate::kind::SyncOperation;
use crate::store::keep;
use crate::store::lemma_keep_membership;
use crate::store::lemma_keep_pairwise;
use crate::store::lemma_remove_pairwise;
use crate::store::lemma_views_push;
use crate::store::lemma_views_remove;
use crate::store::lemma_views_update;
use crate::store::views;
use crate::store::StoreView;
use crate::store::SyncStore;
use crate::strutil::clone_opt;
use crate::strutil::opt_view;
use crate::strutil::own_opt;
use crate::strutil::opt_ref_view;
use crate::strutil::str_eq;

verus! {

/// One pending push operation awaiting transmission.  An entry is
/// created on enqueue, kept (with `retry_count` and `last_error`
/// updated) on a failed transmission, and removed only on a confirmed
/// transmission or an explicit cancellation.
#[derive(Debug)]
pub struct SyncQueueEntry {
    pub id: i64,
    pub entity_kind: EntityKind,
    pub local_id: String,
    pub operation: SyncOperation,
    pub payload: Option<String>,
    pub queued_at: String,
    pub retry_count: i32,
    pub last_error: Option<String>,
}

#[verifier::ext_equal]
pub ghost struct QueueEntryView {
    pub id: i64,
    pub entity_kind: EntityKind,
    pub local_id: Seq<char>,
    pub operation: SyncOperation,
    pub payload: Option<Seq<char>>,
    pub queued_at: Seq<char>,
    pub retry_count: i32,
    pub last_error: Option<Seq<char>>,
}

impl View for SyncQueueEntry {
    type V = QueueEntryView;

    open spec fn view(&self) -> QueueEntryView {
        QueueEntryView {
            id: self.id,
            entity_kind: self.entity_kind,
            local_id: self.local_id@,
            operation: self.operation,
            payload: opt_view(self.payload),
            queued_at: self.queued_at@,
            retry_count: self.retry_count,
            last_error: opt_view(self.last_error),
        }
    }
}

impl Clone for SyncQueueEntry {
    fn clone(&self) -> (res: Self)
        ensures
            res@ == self@,
    {
        SyncQueueEntry {
            id: self.id,
            entity_kind: self.entity_kind,
            local_id: self.local_id.clone(),
            operation: self.operation,
            payload: clone_opt(&self.payload),
            queued_at: self.queued_at.clone(),
            retry_count: self.retry_count,
            last_error: clone_opt(&self.last_error),
        }
    }
}

pub open spec fn has_entry(s: Seq<QueueEntryView>, id: i64) -> bool {
    exists|i: int| 0 <= i < s.len() && s[i].id == id
}

pub open spec fn entry_index(s: Seq<QueueEntryView>, id: i64) -> int {
    choose|i: int| 0 <= i < s.len() && s[i].id == id
}

/// With strictly increasing ids, any entry carrying `id` is the entry
/// `entry_index` names.
proof fn lemma_entry_index_is(s: Seq<QueueEntryView>, id: i64, i: int)
    requires
        forall|a: int, b: int| 0 <= a < b < s.len() ==> s[a].id < s[b].id,
        0 <= i < s.len(),
        s[i].id == id,
    ensures
        has_entry(s, id),
        entry_index(s, id) == i,
{
    assert(has_entry(s, id));
    let k = entry_index(s, id);
    if k < i {
        assert(s[k].id < s[i].id);
    } else if i < k {
        assert(s[i].id < s[k].id);
    }
}

/// The first entry with the given id, if any.
fn find_entry(v: &Vec<SyncQueueEntry>, id: i64) -> (r: Option<usize>)
    ensures
        match r {
            Some(i) => i < v@.len() && views(v@)[i as int].id == id,
            None => !has_entry(views(v@), id),
        },
{
    let mut i: usize = 0;
    while i < v.len()
        invariant
            i <= v@.len(),
            forall|j: int| 0 <= j < i ==> views(v@)[j].id != id,
        decreases v@.len() - i,
    {
        if v[i].id == id {
            return Some(i);
        }
        i = i + 1;
    }
    None
}

/// A fresh queue entry as `enqueue` builds it.
pub open spec fn spec_enqueued(
    id: i64,
    entity_kind: EntityKind,
    local_id: Seq<char>,
    operation: SyncOperation,
    payload: Option<Seq<char>>,
    now: Seq<char>,
) -> QueueEntryView {
    QueueEntryView {
        id: id,
        entity_kind: entity_kind,
        local_id: local_id,
        operation: operation,
        payload: payload,
        queued_at: now,
        retry_count: 0,
        last_error: None,
    }
}

/// Appends a pending push operation.  The entry receives the next id
/// from the monotonic counter, so the queue stays in enqueue order and
/// `get_pending` returns entries first-in-first-out.
pub fn enqueue(
    store: &mut SyncStore,
    entity_kind: EntityKind,
    local_id: &str,
    operation: SyncOperation,
    payload: Option<&str>,
    now: &str,
)
    requires
        old(store).wf(),
        old(store)@.next_queue_id < i64::MAX,
    ensures
        final(store).wf(),
        final(store)@ == (StoreView {
            queue: old(store)@.queue.push(
                spec_enqueued(
                    old(store)@.next_queue_id,
                    entity_kind,
                    local_id@,
                    operation,
                    opt_ref_view(payload),
                    now@,
                ),
            ),
            next_queue_id: (old(store)@.next_queue_id + 1) as i64,
            ..old(store)@
        }),
{
    let ghost q0 = store@.queue;
    let entry = SyncQueueEntry {
        id: store.next_queue_id,
        entity_kind: entity_kind,
        local_id: local_id.to_owned(),
        operation: operation,
        payload: own_opt(&payload),
        queued_at: now.to_owned(),
        retry_count: 0,
        last_error: None,
    };
    let ghost ventry = entry@;
    store.queue.push(entry);
    store.next_queue_id = store.next_queue_id + 1;
    proof {
        assert(ventry =~= spec_enqueued(
            old(store)@.next_queue_id,
            entity_kind,
            local_id@,
            operation,
            opt_ref_view(payload),
            now@,
        ));
        lemma_views_push(old(store).queue@, store.queue@[q0.len() as int]);
        assert(store@.queue =~= q0.push(ventry));
        assert(store@ =~= (StoreView {
            queue: q0.push(ventry),
            next_queue_id: (old(store)@.next_queue_id + 1) as i64,
            ..old(store)@
        }));
    }
}

/// How many entries `get_pending` returns: all of them when `limit` is
/// negative (no limit), else at most `limit`.
pub open spec fn pending_count(len: int, limit: i32) -> int {
    if limit < 0 {
        len
    } else if limit as int <= len {
        limit as int
    } else {
        len
    }
}

/// The oldest pending entries, in enqueue order (ids ascending).  A
/// negative `limit` means no limit, as in a query without one.
pub fn get_pending(store: &SyncStore, limit: i32) -> (r: Vec<SyncQueueEntry>)
    ensures
        views(r@) == store@.queue.take(pending_count(store@.queue.len() as int, limit)),
{
    let ghost q0 = store@.queue;
    let n: usize = if limit < 0 {
        store.queue.len()
    } else if (limit as usize) <= store.queue.len() {
        limit as usize
    } else {
        store.queue.len()
    };
    let mut out: Vec<SyncQueueEntry> = Vec::new();
    let mut i: usize = 0;
    proof {
        assert(views(out@) =~= q0.take(0));
    }
    while i < n
        invariant
            i <= n,
            n as int == pending_count(q0.len() as int, limit),
            n <= store.queue.len(),
            q0 == store@.queue,
            store.queue@.len() == q0.len(),
            views(out@) == q0.take(i as int),
        decreases n - i,
    {
        let ghost vout = out@;
        out.push(store.queue[i].clone());
        proof {
            lemma_views_push(vout, out@[vout.len() as int]);
            assert(views(out@) =~= q0.take(i + 1 as int));
        }
        i = i + 1;
    }
    out
}

/// Removes a queue entry on confirmed transmission.  An unknown id is a
/// silent no-op.
pub fn remove(store: &mut SyncStore, id: i64)
    requires
        old(store).wf(),
    ensures
        final(store).wf(),
        ({
            let q0 = old(store)@.queue;
            if has_entry(q0, id) {
                final(store)@ == (StoreView { queue: q0.remove(entry_index(q0, id)), ..old(store)@ })
            } else {
                final(store)@ == old(store)@
            }
        }),
{
    let ghost q0 = store@.queue;
    let i = match find_entry(&store.queue, id) {
        Some(i) => i,
        None => {
            return ;
        },
    };
    proof {
        lemma_entry_index_is(q0, id, i as int);
    }
    store.queue.remove(i);
    proof {
        lemma_views_remove(old(store).queue@, i as int);
        assert(store@.queue =~= q0.remove(i as int));
        lemma_remove_pairwise(q0, i as int, |a: QueueEntryView, b: QueueEntryView| a.id < b.id);
        assert forall|k: int|
            0 <= k < q0.remove(i as int).len() implies 1 <= (#[trigger] q0.remove(i as int)[k].id)
            < old(store)@.next_queue_id by {
            if k < i {
                assert(q0.remove(i as int)[k] == q0[k]);
            } else {
                assert(q0.remove(i as int)[k] == q0[k + 1]);
            }
        }
        assert(store@ =~= (StoreView { queue: q0.remove(i as int), ..old(store)@ }));
    }
}

/// An entry after a failed transmission attempt: the retry count grows
/// by one (saturating at the integer's ceiling) and the error is
/// recorded; the entry itself stays queued.
pub open spec fn spec_failed(e: QueueEntryView, error: Seq<char>) -> QueueEntryView {
    QueueEntryView {
        retry_count: if e.retry_count == i32::MAX {
            i32::MAX
        } else {
            (e.retry_count + 1) as i32
        },
        last_error: Some(error),
        ..e
    }
}

/// The queue after one failed transmission attempt is recorded against
/// `id`: only that entry changes, and only its retry accounting; an
/// unknown id changes nothing.
pub open spec fn spec_fail_step(
    q: Seq<QueueEntryView>,
    id: i64,
    error: Seq<char>,
) -> Seq<QueueEntryView> {
    if has_entry(q, id) {
        q.update(entry_index(q, id), spec_failed(q[entry_index(q, id)], error))
    } else {
        q
    }
}

/// Records a failed transmission attempt against a queue entry.  The
/// entry is never dropped here: retry policy belongs to the caller.  An
/// unknown id is a silent no-op.
pub fn mark_failed(store: &mut SyncStore, id: i64, error: &str)
    requires
        old(store).wf(),
    ensures
        final(store).wf(),
        final(store)@ == (StoreView {
            queue: spec_fail_step(old(store)@.queue, id, error@),
            ..old(store)@
        }),
{
    let ghost q0 = store@.queue;
    let i = match find_entry(&store.queue, id) {
        Some(i) => i,
        None => {
            proof {
                assert(store@ =~= (StoreView {
                    queue: spec_fail_step(q0, id, error@),
                    ..old(store)@
                }));
            }
            return ;
        },
    };
    proof {
        lemma_entry_index_is(q0, id, i as int);
    }
    let prev = &store.queue[i];
    let row = SyncQueueEntry {
        id: prev.id,
        entity_kind: prev.entity_kind,
        local_id: prev.local_id.clone(),
        operation: prev.operation,
        payload: clone_opt(&prev.payload),
        queued_at: prev.queued_at.clone(),
        retry_count: if prev.retry_count == i32::MAX {
            i32::MAX
        } else {
            prev.retry_count + 1
        },
        last_error: Some(error.to_owned()),
    };
    let ghost vrow = row@;
    store.queue[i] = row;
    proof {
        assert(vrow =~= spec_failed(q0[i as int], error@));
        lemma_views_update(old(store).queue@, i as int, store.queue@[i as int]);
        assert(store@.queue =~= q0.update(i as int, vrow));
        assert forall|a: int, b: int|
            0 <= a < b < store@.queue.len() implies store@.queue[a].id < store@.queue[b].id by {
            assert(q0[a].id < q0[b].id);
        }
        assert(store@ =~= (StoreView { queue: q0.update(i as int, vrow), ..old(store)@ }));
    }
}

/// The entries that survive a cancellation: those not belonging to the
/// given entity.
pub open spec fn other_item_pred(
    entity_kind: EntityKind,
    local_id: Seq<char>,
) -> spec_fn(QueueEntryView) -> bool {
    |e: QueueEntryView| !(e.entity_kind == entity_kind && e.local_id == local_id)
}

/// Cancels every queued operation for one entity, used when the entity
/// is deleted locally before anything was transmitted.  Entries for
/// other entities keep their order.
pub fn clear_for_item(store: &mut SyncStore, entity_kind: EntityKind, local_id: &str)
    requires
        old(store).wf(),
    ensures
        final(store).wf(),
        final(store)@ == (StoreView {
            queue: keep(old(store)@.queue, other_item_pred(entity_kind, local_id@)),
            ..old(store)@
        }),
{
    let ghost q0 = store@.queue;
    let ghost pred = other_item_pred(entity_kind, local_id@);
    let mut out: Vec<SyncQueueEntry> = Vec::new();
    let mut i: usize = 0;
    proof {
        assert(views(out@) =~= keep(q0.take(0), pred));
    }
    while i < store.queue.len()
        invariant
            i <= store.queue@.len(),
            q0 == store@.queue,
            store.queue@.len() == q0.len(),
            views(out@) == keep(q0.take(i as int), pred),
            pred == other_item_pred(entity_kind, local_id@),
        decreases store.queue@.len() - i,
    {
        proof {
            assert(q0.take(i + 1 as int).drop_last() =~= q0.take(i as int));
            assert(q0.take(i + 1 as int).last() == q0[i as int]);
        }
        let e = &store.queue[i];
        let matches_item = e.entity_kind == entity_kind && str_eq(e.local_id.as_str(), local_id);
        if !matches_item {
            let ghost vout = out@;
            out.push(e.clone());
            proof {
                lemma_views_push(vout, out@[vout.len() as int]);
                assert(views(out@) =~= keep(q0.take(i + 1 as int), pred));
            }
        }
        i = i + 1;
    }
    proof {
        assert(q0.take(q0.len() as int) =~= q0);
    }
    store.queue = out;
    proof {
        let lt = |a: QueueEntryView, b: QueueEntryView| a.id < b.id;
        lemma_keep_pairwise(q0, pred, lt);
        lemma_keep_membership(q0, pred);
        assert forall|a: int, b: int|
            0 <= a < b < store@.queue.len() implies store@.queue[a].id < store@.queue[b].id by {
            assert(lt(keep(q0, pred)[a], keep(q0, pred)[b]));
        }
        assert forall|k: int|
            0 <= k < store@.queue.len() implies 1 <= (#[trigger] store@.queue[k].id) < old(
            store,
        )@.next_queue_id by {
            let j = choose|j: int| 0 <= j < q0.len() && keep(q0, pred)[k] == q0[j];
            assert(1 <= q0[j].id < old(store)@.next_queue_id);
        }
        assert(store@ =~= (StoreView { queue: keep(q0, pred), ..old(store)@ }));
    }
}

} // verus!
