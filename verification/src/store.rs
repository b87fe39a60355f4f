use vstd::prelude::*;
use crate::collections;
use crate::collections::Collection;
use crate::collections::CollectionView;
use crate::environments;
use crate::environments::Environment;
use crate::environments::EnvironmentView;
use crate::folders;
use crate::folders::Folder;
use crate::folders::FolderView;
use crate::history;
use crate::history::HistoryEntry;
use crate::history::HistoryEntryView;
use crate::requests;
use crate::requests::RequestView;
use crate::requests::SavedRequest;
use crate::settings;
use crate::settings::Setting;
use crate::settings::SettingView;
use crate::strutil::str_eq;
use crate::sync::QueueEntryView;
use crate::sync::SyncQueueEntry;

verus! {

/// The views of a sequence of rows.
pub open spec fn views<T: View>(s: Seq<T>) -> Seq<T::V> {
    s.map_values(|t: T| t@)
}

pub proof fn lemma_views_push<T: View>(s: Seq<T>, x: T)
    ensures
        views(s.push(x)) =~= views(s).push(x@),
{
}

pub proof fn lemma_views_update<T: View>(s: Seq<T>, i: int, x: T)
    requires
        0 <= i < s.len(),
    ensures
        views(s.update(i, x)) =~= views(s).update(i, x@),
{
}

pub proof fn lemma_views_insert<T: View>(s: Seq<T>, i: int, x: T)
    requires
        0 <= i <= s.len(),
    ensures
        views(s.insert(i, x)) =~= views(s).insert(i, x@),
{
}

pub proof fn lemma_views_remove<T: View>(s: Seq<T>, i: int)
    requires
        0 <= i < s.len(),
    ensures
        views(s.remove(i)) =~= views(s).remove(i),
{
}

/// A pairwise, order-respecting relation survives removing one row.
pub proof fn lemma_remove_pairwise<A>(s: Seq<A>, at: int, rel: spec_fn(A, A) -> bool)
    requires
        0 <= at < s.len(),
        forall|i: int, j: int| 0 <= i < j < s.len() ==> #[trigger] rel(s[i], s[j]),
    ensures
        forall|i: int, j: int|
            0 <= i < j < s.remove(at).len() ==> #[trigger] rel(s.remove(at)[i], s.remove(at)[j]),
{
    assert forall|i: int, j: int| 0 <= i < j < s.remove(at).len() implies #[trigger] rel(
        s.remove(at)[i],
        s.remove(at)[j],
    ) by {
        let oi: int = if i < at { i } else { i + 1 };
        let oj: int = if j < at { j } else { j + 1 };
        assert(s.remove(at)[i] == s[oi]);
        assert(s.remove(at)[j] == s[oj]);
        assert(rel(s[oi], s[oj]));
    }
}

/// The rows of `s` that satisfy `pred`, in order.
pub open spec fn keep<A>(s: Seq<A>, pred: spec_fn(A) -> bool) -> Seq<A>
    decreases s.len(),
{
    if s.len() == 0 {
        s
    } else {
        let rest = keep(s.drop_last(), pred);
        if pred(s.last()) {
            rest.push(s.last())
        } else {
            rest
        }
    }
}

/// Every kept row satisfies the predicate and is a row of the source.
pub proof fn lemma_keep_membership<A>(s: Seq<A>, pred: spec_fn(A) -> bool)
    ensures
        keep(s, pred).len() <= s.len(),
        forall|i: int|
            0 <= i < keep(s, pred).len() ==> pred(#[trigger] keep(s, pred)[i]) && exists|j: int|
                0 <= j < s.len() && keep(s, pred)[i] == s[j],
    decreases s.len(),
{
    if s.len() > 0 {
        lemma_keep_membership(s.drop_last(), pred);
        let pre = s.drop_last();
        assert forall|i: int| 0 <= i < keep(s, pred).len() implies pred(
            #[trigger] keep(s, pred)[i],
        ) && exists|j: int| 0 <= j < s.len() && keep(s, pred)[i] == s[j] by {
            if i < keep(pre, pred).len() {
                assert(keep(s, pred)[i] == keep(pre, pred)[i]);
                let j = choose|j: int| 0 <= j < pre.len() && keep(pre, pred)[i] == pre[j];
                assert(keep(s, pred)[i] == s[j]);
            } else {
                assert(keep(s, pred)[i] == s[s.len() - 1]);
            }
        }
    }
}

/// A pairwise, order-respecting relation survives `keep`.
pub proof fn lemma_keep_pairwise<A>(s: Seq<A>, pred: spec_fn(A) -> bool, rel: spec_fn(A, A) -> bool)
    requires
        forall|i: int, j: int| 0 <= i < j < s.len() ==> #[trigger] rel(s[i], s[j]),
    ensures
        forall|i: int, j: int|
            0 <= i < j < keep(s, pred).len() ==> #[trigger] rel(keep(s, pred)[i], keep(s, pred)[j]),
    decreases s.len(),
{
    if s.len() > 0 {
        let pre = s.drop_last();
        lemma_keep_pairwise(pre, pred, rel);
        lemma_keep_membership(pre, pred);
        assert forall|i: int, j: int| 0 <= i < j < keep(s, pred).len() implies #[trigger] rel(
            keep(s, pred)[i],
            keep(s, pred)[j],
        ) by {
            if j < keep(pre, pred).len() {
                assert(keep(s, pred)[i] == keep(pre, pred)[i]);
                assert(keep(s, pred)[j] == keep(pre, pred)[j]);
            } else {
                assert(keep(s, pred)[j] == s[s.len() - 1]);
                assert(keep(s, pred)[i] == keep(pre, pred)[i]);
                let k = choose|k: int| 0 <= k < pre.len() && keep(pre, pred)[i] == pre[k];
                assert(rel(s[k], s[s.len() - 1]));
            }
        }
    }
}

/// Runtime check of the collection invariants: unique local ids, unique
/// remote ids, dirty only with an anchor.
fn collections_invariants(v: &Vec<Collection>) -> (r: bool)
    ensures
        r == (crate::collections::unique_ids(views(v@)) && crate::collections::unique_cloud_ids(views(v@))
            && crate::collections::dirty_anchored(views(v@))),
{
    let n = v.len();
    let mut i: usize = 0;
    while i < n
        invariant
            i <= n,
            n == v@.len(),
            forall|a: int, b: int|
                0 <= a < b < n && a < i ==> (#[trigger] views(v@)[a]).id != (#[trigger] views(
                    v@,
                )[b]).id,
            forall|a: int, b: int|
                0 <= a < b < n && a < i && (#[trigger] views(v@)[a]).cloud_id is Some ==> views(
                    v@,
                )[a].cloud_id != (#[trigger] views(v@)[b]).cloud_id,
            forall|a: int|
                0 <= a < i ==> ((#[trigger] views(v@)[a]).dirty ==> crate::collections::anchored(
                    views(v@)[a],
                )),
        decreases n - i,
    {
        if v[i].dirty && v[i].team_id.is_none() {
            proof {
                assert(!crate::collections::dirty_anchored(views(v@)));
            }
            return false;
        }
        let mut j: usize = i + 1;
        while j < n
            invariant
                i < j <= n,
                i < n,
                n == v@.len(),
                forall|b: int|
                    i < b < j ==> views(v@)[i as int].id != (#[trigger] views(v@)[b]).id,
                forall|b: int|
                    i < b < j && views(v@)[i as int].cloud_id is Some ==> views(
                        v@,
                    )[i as int].cloud_id != (#[trigger] views(v@)[b]).cloud_id,
            decreases n - j,
        {
            if str_eq(v[i].id.as_str(), v[j].id.as_str()) {
                proof {
                    assert(views(v@)[i as int].id == views(v@)[j as int].id);
                    assert(!crate::collections::unique_ids(views(v@)));
                }
                return false;
            }
            let cloud_dup = match (&v[i].cloud_id, &v[j].cloud_id) {
                (Some(x), Some(y)) => str_eq(x.as_str(), y.as_str()),
                _ => false,
            };
            if cloud_dup {
                proof {
                    assert(views(v@)[i as int].cloud_id is Some && views(v@)[i as int].cloud_id
                        == views(v@)[j as int].cloud_id);
                    assert(!crate::collections::unique_cloud_ids(views(v@)));
                }
                return false;
            }
            j = j + 1;
        }
        i = i + 1;
    }
    true
}

/// Runtime check of the folder invariants: unique local ids, unique
/// remote ids, dirty only with an anchor.
fn folders_invariants(v: &Vec<Folder>) -> (r: bool)
    ensures
        r == (crate::folders::unique_ids(views(v@)) && crate::folders::unique_cloud_ids(views(v@))
            && crate::folders::dirty_anchored(views(v@))),
{
    let n = v.len();
    let mut i: usize = 0;
    while i < n
        invariant
            i <= n,
            n == v@.len(),
            forall|a: int, b: int|
                0 <= a < b < n && a < i ==> (#[trigger] views(v@)[a]).id != (#[trigger] views(
                    v@,
                )[b]).id,
            forall|a: int, b: int|
                0 <= a < b < n && a < i && (#[trigger] views(v@)[a]).cloud_id is Some ==> views(
                    v@,
                )[a].cloud_id != (#[trigger] views(v@)[b]).cloud_id,
            forall|a: int|
                0 <= a < i ==> ((#[trigger] views(v@)[a]).dirty ==> crate::folders::anchored(
                    views(v@)[a],
                )),
        decreases n - i,
    {
        if v[i].dirty && v[i].cloud_id.is_none() {
            proof {
                assert(!crate::folders::dirty_anchored(views(v@)));
            }
            return false;
        }
        let mut j: usize = i + 1;
        while j < n
            invariant
                i < j <= n,
                i < n,
                n == v@.len(),
                forall|b: int|
                    i < b < j ==> views(v@)[i as int].id != (#[trigger] views(v@)[b]).id,
                forall|b: int|
                    i < b < j && views(v@)[i as int].cloud_id is Some ==> views(
                        v@,
                    )[i as int].cloud_id != (#[trigger] views(v@)[b]).cloud_id,
            decreases n - j,
        {
            if str_eq(v[i].id.as_str(), v[j].id.as_str()) {
                proof {
                    assert(views(v@)[i as int].id == views(v@)[j as int].id);
                    assert(!crate::folders::unique_ids(views(v@)));
                }
                return false;
            }
            let cloud_dup = match (&v[i].cloud_id, &v[j].cloud_id) {
                (Some(x), Some(y)) => str_eq(x.as_str(), y.as_str()),
                _ => false,
            };
            if cloud_dup {
                proof {
                    assert(views(v@)[i as int].cloud_id is Some && views(v@)[i as int].cloud_id
                        == views(v@)[j as int].cloud_id);
                    assert(!crate::folders::unique_cloud_ids(views(v@)));
                }
                return false;
            }
            j = j + 1;
        }
        i = i + 1;
    }
    true
}

/// Runtime check of the request invariants: unique local ids, unique
/// remote ids, dirty only with an anchor.
fn requests_invariants(v: &Vec<SavedRequest>) -> (r: bool)
    ensures
        r == (crate::requests::unique_ids(views(v@)) && crate::requests::unique_cloud_ids(views(v@))
            && crate::requests::dirty_anchored(views(v@))),
{
    let n = v.len();
    let mut i: usize = 0;
    while i < n
        invariant
            i <= n,
            n == v@.len(),
            forall|a: int, b: int|
                0 <= a < b < n && a < i ==> (#[trigger] views(v@)[a]).id != (#[trigger] views(
                    v@,
                )[b]).id,
            forall|a: int, b: int|
                0 <= a < b < n && a < i && (#[trigger] views(v@)[a]).cloud_id is Some ==> views(
                    v@,
                )[a].cloud_id != (#[trigger] views(v@)[b]).cloud_id,
            forall|a: int|
                0 <= a < i ==> ((#[trigger] views(v@)[a]).dirty ==> crate::requests::anchored(
                    views(v@)[a],
                )),
        decreases n - i,
    {
        if v[i].dirty && v[i].cloud_id.is_none() {
            proof {
                assert(!crate::requests::dirty_anchored(views(v@)));
            }
            return false;
        }
        let mut j: usize = i + 1;
        while j < n
            invariant
                i < j <= n,
                i < n,
                n == v@.len(),
                forall|b: int|
                    i < b < j ==> views(v@)[i as int].id != (#[trigger] views(v@)[b]).id,
                forall|b: int|
                    i < b < j && views(v@)[i as int].cloud_id is Some ==> views(
                        v@,
                    )[i as int].cloud_id != (#[trigger] views(v@)[b]).cloud_id,
            decreases n - j,
        {
            if str_eq(v[i].id.as_str(), v[j].id.as_str()) {
                proof {
                    assert(views(v@)[i as int].id == views(v@)[j as int].id);
                    assert(!crate::requests::unique_ids(views(v@)));
                }
                return false;
            }
            let cloud_dup = match (&v[i].cloud_id, &v[j].cloud_id) {
                (Some(x), Some(y)) => str_eq(x.as_str(), y.as_str()),
                _ => false,
            };
            if cloud_dup {
                proof {
                    assert(views(v@)[i as int].cloud_id is Some && views(v@)[i as int].cloud_id
                        == views(v@)[j as int].cloud_id);
                    assert(!crate::requests::unique_cloud_ids(views(v@)));
                }
                return false;
            }
            j = j + 1;
        }
        i = i + 1;
    }
    true
}

/// Runtime check of unique local ids among the environment rows.
fn environments_invariants(v: &Vec<Environment>) -> (r: bool)
    ensures
        r == crate::environments::unique_ids(views(v@)),
{
    let n = v.len();
    let mut i: usize = 0;
    while i < n
        invariant
            i <= n,
            n == v@.len(),
            forall|a: int, b: int|
                0 <= a < b < n && a < i ==> (#[trigger] views(v@)[a]).id != (#[trigger] views(
                    v@,
                )[b]).id,
        decreases n - i,
    {
        let mut j: usize = i + 1;
        while j < n
            invariant
                i < j <= n,
                i < n,
                n == v@.len(),
                forall|b: int|
                    i < b < j ==> views(v@)[i as int].id != (#[trigger] views(v@)[b]).id,
            decreases n - j,
        {
            if str_eq(v[i].id.as_str(), v[j].id.as_str()) {
                proof {
                    assert(views(v@)[i as int].id == views(v@)[j as int].id);
                    assert(!crate::environments::unique_ids(views(v@)));
                }
                return false;
            }
            j = j + 1;
        }
        i = i + 1;
    }
    true
}

/// Runtime check of unique entry ids among the histor rows.
fn history_invariants(v: &Vec<HistoryEntry>) -> (r: bool)
    ensures
        r == crate::history::unique_ids(views(v@)),
{
    let n = v.len();
    let mut i: usize = 0;
    while i < n
        invariant
            i <= n,
            n == v@.len(),
            forall|a: int, b: int|
                0 <= a < b < n && a < i ==> (#[trigger] views(v@)[a]).id != (#[trigger] views(
                    v@,
                )[b]).id,
        decreases n - i,
    {
        let mut j: usize = i + 1;
        while j < n
            invariant
                i < j <= n,
                i < n,
                n == v@.len(),
                forall|b: int|
                    i < b < j ==> views(v@)[i as int].id != (#[trigger] views(v@)[b]).id,
            decreases n - j,
        {
            if str_eq(v[i].id.as_str(), v[j].id.as_str()) {
                proof {
                    assert(views(v@)[i as int].id == views(v@)[j as int].id);
                    assert(!crate::history::unique_ids(views(v@)));
                }
                return false;
            }
            j = j + 1;
        }
        i = i + 1;
    }
    true
}

/// Runtime check of unique keys among the setting rows.
fn settings_invariants(v: &Vec<Setting>) -> (r: bool)
    ensures
        r == crate::settings::unique_keys(views(v@)),
{
    let n = v.len();
    let mut i: usize = 0;
    while i < n
        invariant
            i <= n,
            n == v@.len(),
            forall|a: int, b: int|
                0 <= a < b < n && a < i ==> (#[trigger] views(v@)[a]).key != (#[trigger] views(
                    v@,
                )[b]).key,
        decreases n - i,
    {
        let mut j: usize = i + 1;
        while j < n
            invariant
                i < j <= n,
                i < n,
                n == v@.len(),
                forall|b: int|
                    i < b < j ==> views(v@)[i as int].key != (#[trigger] views(v@)[b]).key,
            decreases n - j,
        {
            if str_eq(v[i].key.as_str(), v[j].key.as_str()) {
                proof {
                    assert(views(v@)[i as int].key == views(v@)[j as int].key);
                    assert(!crate::settings::unique_keys(views(v@)));
                }
                return false;
            }
            j = j + 1;
        }
        i = i + 1;
    }
    true
}

/// Runtime check of the queue invariants: ids strictly increasing,
/// every id at least one and below the counter.
fn queue_invariants(v: &Vec<SyncQueueEntry>, next: i64) -> (r: bool)
    ensures
        r == ({
            let q = views(v@);
            &&& forall|a: int, b: int| 0 <= a < b < q.len() ==> q[a].id < q[b].id
            &&& forall|i: int| 0 <= i < q.len() ==> 1 <= (#[trigger] q[i].id) < next
            &&& 1 <= next
        }),
{
    if next < 1 {
        return false;
    }
    let n = v.len();
    let mut i: usize = 0;
    while i < n
        invariant
            i <= n,
            n == v@.len(),
            forall|a: int, b: int|
                0 <= a < b < n && a < i ==> (#[trigger] views(v@)[a]).id < (#[trigger] views(
                    v@,
                )[b]).id,
            forall|a: int| 0 <= a < i ==> 1 <= (#[trigger] views(v@)[a].id) < next,
        decreases n - i,
    {
        if v[i].id < 1 || v[i].id >= next {
            proof {
                assert(!(1 <= views(v@)[i as int].id < next));
            }
            return false;
        }
        let mut j: usize = i + 1;
        while j < n
            invariant
                i < j <= n,
                i < n,
                n == v@.len(),
                forall|b: int|
                    i < b < j ==> views(v@)[i as int].id < (#[trigger] views(v@)[b]).id,
            decreases n - j,
        {
            if v[i].id >= v[j].id {
                proof {
                    assert(!(views(v@)[i as int].id < views(v@)[j as int].id));
                }
                return false;
            }
            j = j + 1;
        }
        i = i + 1;
    }
    true
}

/// The local store: every workspace row, plus the pending sync queue.
/// All mutation goes through the operations of the entity modules, each
/// of which preserves `wf`.
pub struct SyncStore {
    pub collections: Vec<Collection>,
    pub folders: Vec<Folder>,
    pub requests: Vec<SavedRequest>,
    pub environments: Vec<Environment>,
    pub history: Vec<HistoryEntry>,
    pub settings: Vec<Setting>,
    pub queue: Vec<SyncQueueEntry>,
    pub next_queue_id: i64,
}

#[verifier::ext_equal]
pub ghost struct StoreView {
    pub collections: Seq<CollectionView>,
    pub folders: Seq<FolderView>,
    pub requests: Seq<RequestView>,
    pub environments: Seq<EnvironmentView>,
    pub history: Seq<HistoryEntryView>,
    pub settings: Seq<SettingView>,
    pub queue: Seq<QueueEntryView>,
    pub next_queue_id: i64,
}

impl View for SyncStore {
    type V = StoreView;

    open spec fn view(&self) -> StoreView {
        StoreView {
            collections: views(self.collections@),
            folders: views(self.folders@),
            requests: views(self.requests@),
            environments: views(self.environments@),
            history: views(self.history@),
            settings: views(self.settings@),
            queue: views(self.queue@),
            next_queue_id: self.next_queue_id,
        }
    }
}

impl StoreView {
    /// Queue entry ids are assigned from a monotonic counter: they are
    /// strictly increasing along the queue, so the queue order is the
    /// enqueue order, and every id is below the counter.
    pub open spec fn queue_wf(self) -> bool {
        &&& forall|i: int, j: int|
            0 <= i < j < self.queue.len() ==> self.queue[i].id < self.queue[j].id
        &&& forall|i: int|
            0 <= i < self.queue.len() ==> 1 <= #[trigger] self.queue[i].id < self.next_queue_id
        &&& 1 <= self.next_queue_id
    }

    /// Well-formedness of the whole store: local ids are unique within
    /// each kind, at most one row of a kind maps to a given remote id,
    /// a row without a sync anchor is never dirty, settings keys are
    /// unique, and the queue is in enqueue order.
    pub open spec fn wf(self) -> bool {
        &&& collections::unique_ids(self.collections)
        &&& collections::unique_cloud_ids(self.collections)
        &&& collections::dirty_anchored(self.collections)
        &&& folders::unique_ids(self.folders)
        &&& folders::unique_cloud_ids(self.folders)
        &&& folders::dirty_anchored(self.folders)
        &&& requests::unique_ids(self.requests)
        &&& requests::unique_cloud_ids(self.requests)
        &&& requests::dirty_anchored(self.requests)
        &&& environments::unique_ids(self.environments)
        &&& history::unique_ids(self.history)
        &&& settings::unique_keys(self.settings)
        &&& self.queue_wf()
    }

    pub open spec fn empty() -> StoreView {
        StoreView {
            collections: Seq::empty(),
            folders: Seq::empty(),
            requests: Seq::empty(),
            environments: Seq::empty(),
            history: Seq::empty(),
            settings: Seq::empty(),
            queue: Seq::empty(),
            next_queue_id: 1,
        }
    }
}

impl SyncStore {
    pub open spec fn wf(self) -> bool {
        self@.wf()
    }

    /// A fresh, empty store.
    pub fn new() -> (s: SyncStore)
        ensures
            s.wf(),
            s@ == StoreView::empty(),
    {
        let s = SyncStore {
            collections: Vec::new(),
            folders: Vec::new(),
            requests: Vec::new(),
            environments: Vec::new(),
            history: Vec::new(),
            settings: Vec::new(),
            queue: Vec::new(),
            next_queue_id: 1,
        };
        proof {
            assert(s@ =~= StoreView::empty());
        }
        s
    }

    /// Checks the whole store invariant at run time: true exactly when
    /// `wf` holds.  Data arriving from outside the library (a loaded
    /// database, whose columns do not enforce these invariants) goes
    /// through this gate before the verified operations accept it.
    pub fn check_wf(&self) -> (r: bool)
        ensures
            r == self.wf(),
    {
        collections_invariants(&self.collections) && folders_invariants(&self.folders)
            && requests_invariants(&self.requests) && environments_invariants(&self.environments)
            && history_invariants(&self.history) && settings_invariants(&self.settings)
            && queue_invariants(&self.queue, self.next_queue_id)
    }

}

} // verus!
