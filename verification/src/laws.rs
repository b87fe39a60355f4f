use vstd::prelude::*;
use crate::collections;
use crate::collections::CollectionView;
use crate::collections::UpdateCollection;
use crate::folders;
use crate::folders::FolderView;
use crate::folders::UpdateFolder;
use crate::requests;
use crate::requests::RequestView;
use crate::requests::UpdateRequest;
use crate::store::StoreView;
use crate::sync;
use crate::sync::QueueEntryView;

verus! {

/// Reconciling the same cloud collection twice is idempotent: the
/// second reconciliation finds the row the first one produced, keeps
/// its local id, and changes nothing about it beyond refreshing the
/// sync stamp; with the same stamp the store is exactly the same.
pub proof fn lemma_reconcile_idempotent_collection(
    s: Seq<CollectionView>,
    f1: Seq<char>,
    f2: Seq<char>,
    cloud_id: Seq<char>,
    team_id: Seq<char>,
    name: Seq<char>,
    description: Seq<char>,
    default_headers: Seq<char>,
    default_auth: Seq<char>,
    variables: Seq<char>,
    sort_order: i32,
    t1: Seq<char>,
    t2: Seq<char>,
)
    requires
        collections::unique_ids(s),
        collections::unique_cloud_ids(s),
        collections::dirty_anchored(s),
        !collections::has_id(s, f1),
    ensures
        ({
            let s1 = collections::spec_upsert(
                s,
                f1,
                cloud_id,
                team_id,
                name,
                description,
                default_headers,
                default_auth,
                variables,
                sort_order,
                t1,
            );
            let row1 = collections::spec_upsert_row(
                s,
                f1,
                cloud_id,
                team_id,
                name,
                description,
                default_headers,
                default_auth,
                variables,
                sort_order,
                t1,
            );
            let s2 = collections::spec_upsert(
                s1,
                f2,
                cloud_id,
                team_id,
                name,
                description,
                default_headers,
                default_auth,
                variables,
                sort_order,
                t2,
            );
            let row2 = collections::spec_upsert_row(
                s1,
                f2,
                cloud_id,
                team_id,
                name,
                description,
                default_headers,
                default_auth,
                variables,
                sort_order,
                t2,
            );
            &&& collections::has_cloud(s1, cloud_id)
            &&& row2.id == row1.id
            &&& row2 == (CollectionView { synced_at: Some(t2), ..row1 })
            &&& s2 == s1.update(collections::cloud_index(s1, cloud_id), row2)
            &&& t2 == t1 ==> s2 == s1
        }),
{
    let s1 = collections::spec_upsert(
        s,
        f1,
        cloud_id,
        team_id,
        name,
        description,
        default_headers,
        default_auth,
        variables,
        sort_order,
        t1,
    );
    let row1 = collections::spec_upsert_row(
        s,
        f1,
        cloud_id,
        team_id,
        name,
        description,
        default_headers,
        default_auth,
        variables,
        sort_order,
        t1,
    );
    if collections::has_cloud(s, cloud_id) {
        let i = collections::cloud_index(s, cloud_id);
        collections::lemma_update_wf(s, i, row1);
        collections::lemma_cloud_index_is(s1, cloud_id, i);
    } else {
        collections::lemma_push_wf(s, row1);
        collections::lemma_cloud_index_is(s1, cloud_id, s.len() as int);
    }
    let i1 = collections::cloud_index(s1, cloud_id);
    assert(s1[i1] == row1);
    let row2 = collections::spec_upsert_row(
        s1,
        f2,
        cloud_id,
        team_id,
        name,
        description,
        default_headers,
        default_auth,
        variables,
        sort_order,
        t2,
    );
    assert(row2 =~= (CollectionView { synced_at: Some(t2), ..row1 }));
    if t2 == t1 {
        assert(row2 =~= row1);
        assert(collections::spec_upsert(
            s1,
            f2,
            cloud_id,
            team_id,
            name,
            description,
            default_headers,
            default_auth,
            variables,
            sort_order,
            t2,
        ) =~= s1);
    }
}

/// Reconciling the same cloud folder twice is idempotent, in the same
/// sense as for collections.
pub proof fn lemma_reconcile_idempotent_folder(
    s: Seq<FolderView>,
    f1: Seq<char>,
    f2: Seq<char>,
    cloud_id: Seq<char>,
    collection_id: Seq<char>,
    parent_folder_id: Option<Seq<char>>,
    name: Seq<char>,
    default_headers: Seq<char>,
    default_auth: Seq<char>,
    variables: Seq<char>,
    sort_order: i32,
    t1: Seq<char>,
    t2: Seq<char>,
)
    requires
        folders::unique_ids(s),
        folders::unique_cloud_ids(s),
        folders::dirty_anchored(s),
        !folders::has_id(s, f1),
    ensures
        ({
            let s1 = folders::spec_upsert(
                s,
                f1,
                cloud_id,
                collection_id,
                parent_folder_id,
                name,
                default_headers,
                default_auth,
                variables,
                sort_order,
                t1,
            );
            let row1 = folders::spec_upsert_row(
                s,
                f1,
                cloud_id,
                collection_id,
                parent_folder_id,
                name,
                default_headers,
                default_auth,
                variables,
                sort_order,
                t1,
            );
            let s2 = folders::spec_upsert(
                s1,
                f2,
                cloud_id,
                collection_id,
                parent_folder_id,
                name,
                default_headers,
                default_auth,
                variables,
                sort_order,
                t2,
            );
            let row2 = folders::spec_upsert_row(
                s1,
                f2,
                cloud_id,
                collection_id,
                parent_folder_id,
                name,
                default_headers,
                default_auth,
                variables,
                sort_order,
                t2,
            );
            &&& folders::has_cloud(s1, cloud_id)
            &&& row2.id == row1.id
            &&& row2 == (FolderView { synced_at: Some(t2), ..row1 })
            &&& s2 == s1.update(folders::cloud_index(s1, cloud_id), row2)
            &&& t2 == t1 ==> s2 == s1
        }),
{
    let s1 = folders::spec_upsert(
        s,
        f1,
        cloud_id,
        collection_id,
        parent_folder_id,
        name,
        default_headers,
        default_auth,
        variables,
        sort_order,
        t1,
    );
    let row1 = folders::spec_upsert_row(
        s,
        f1,
        cloud_id,
        collection_id,
        parent_folder_id,
        name,
        default_headers,
        default_auth,
        variables,
        sort_order,
        t1,
    );
    if folders::has_cloud(s, cloud_id) {
        let i = folders::cloud_index(s, cloud_id);
        folders::lemma_update_wf(s, i, row1);
        folders::lemma_cloud_index_is(s1, cloud_id, i);
    } else {
        folders::lemma_push_wf(s, row1);
        folders::lemma_cloud_index_is(s1, cloud_id, s.len() as int);
    }
    let i1 = folders::cloud_index(s1, cloud_id);
    assert(s1[i1] == row1);
    let row2 = folders::spec_upsert_row(
        s1,
        f2,
        cloud_id,
        collection_id,
        parent_folder_id,
        name,
        default_headers,
        default_auth,
        variables,
        sort_order,
        t2,
    );
    assert(row2 =~= (FolderView { synced_at: Some(t2), ..row1 }));
    if t2 == t1 {
        assert(row2 =~= row1);
        assert(folders::spec_upsert(
            s1,
            f2,
            cloud_id,
            collection_id,
            parent_folder_id,
            name,
            default_headers,
            default_auth,
            variables,
            sort_order,
            t2,
        ) =~= s1);
    }
}

/// Reconciling the same cloud request twice is idempotent, in the same
/// sense as for collections.
pub proof fn lemma_reconcile_idempotent_request(
    s: Seq<RequestView>,
    f1: Seq<char>,
    f2: Seq<char>,
    cloud_id: Seq<char>,
    collection_id: Seq<char>,
    folder_id: Option<Seq<char>>,
    name: Seq<char>,
    method: Seq<char>,
    url: Seq<char>,
    headers: Seq<char>,
    params: Seq<char>,
    body: Seq<char>,
    auth: Seq<char>,
    variables: Seq<char>,
    sort_order: i32,
    t1: Seq<char>,
    t2: Seq<char>,
)
    requires
        requests::unique_ids(s),
        requests::unique_cloud_ids(s),
        requests::dirty_anchored(s),
        !requests::has_id(s, f1),
    ensures
        ({
            let s1 = requests::spec_upsert(
                s,
                f1,
                cloud_id,
                collection_id,
                folder_id,
                name,
                method,
                url,
                headers,
                params,
                body,
                auth,
                variables,
                sort_order,
                t1,
            );
            let row1 = requests::spec_upsert_row(
                s,
                f1,
                cloud_id,
                collection_id,
                folder_id,
                name,
                method,
                url,
                headers,
                params,
                body,
                auth,
                variables,
                sort_order,
                t1,
            );
            let s2 = requests::spec_upsert(
                s1,
                f2,
                cloud_id,
                collection_id,
                folder_id,
                name,
                method,
                url,
                headers,
                params,
                body,
                auth,
                variables,
                sort_order,
                t2,
            );
            let row2 = requests::spec_upsert_row(
                s1,
                f2,
                cloud_id,
                collection_id,
                folder_id,
                name,
                method,
                url,
                headers,
                params,
                body,
                auth,
                variables,
                sort_order,
                t2,
            );
            &&& requests::has_cloud(s1, cloud_id)
            &&& row2.id == row1.id
            &&& row2 == (RequestView { synced_at: Some(t2), ..row1 })
            &&& s2 == s1.update(requests::cloud_index(s1, cloud_id), row2)
            &&& t2 == t1 ==> s2 == s1
        }),
{
    let s1 = requests::spec_upsert(
        s,
        f1,
        cloud_id,
        collection_id,
        folder_id,
        name,
        method,
        url,
        headers,
        params,
        body,
        auth,
        variables,
        sort_order,
        t1,
    );
    let row1 = requests::spec_upsert_row(
        s,
        f1,
        cloud_id,
        collection_id,
        folder_id,
        name,
        method,
        url,
        headers,
        params,
        body,
        auth,
        variables,
        sort_order,
        t1,
    );
    if requests::has_cloud(s, cloud_id) {
        let i = requests::cloud_index(s, cloud_id);
        requests::lemma_update_wf(s, i, row1);
        requests::lemma_cloud_index_is(s1, cloud_id, i);
    } else {
        requests::lemma_push_wf(s, row1);
        requests::lemma_cloud_index_is(s1, cloud_id, s.len() as int);
    }
    let i1 = requests::cloud_index(s1, cloud_id);
    assert(s1[i1] == row1);
    let row2 = requests::spec_upsert_row(
        s1,
        f2,
        cloud_id,
        collection_id,
        folder_id,
        name,
        method,
        url,
        headers,
        params,
        body,
        auth,
        variables,
        sort_order,
        t2,
    );
    assert(row2 =~= (RequestView { synced_at: Some(t2), ..row1 }));
    if t2 == t1 {
        assert(row2 =~= row1);
        assert(requests::spec_upsert(
            s1,
            f2,
            cloud_id,
            collection_id,
            folder_id,
            name,
            method,
            url,
            headers,
            params,
            body,
            auth,
            variables,
            sort_order,
            t2,
        ) =~= s1);
    }
}

/// In a well-formed store, at most one collection row maps to a given
/// remote id: any two rows carrying the same remote id are the same
/// row.  Every operation of the library keeps the store well formed,
/// so this holds after any sequence of them.
pub proof fn lemma_no_duplicate_mapping_collection(sv: StoreView, cloud_id: Seq<char>, i: int, j: int)
    requires
        sv.wf(),
        0 <= i < sv.collections.len(),
        0 <= j < sv.collections.len(),
        sv.collections[i].cloud_id == Some(cloud_id),
        sv.collections[j].cloud_id == Some(cloud_id),
    ensures
        i == j,
{
    collections::lemma_cloud_index_is(sv.collections, cloud_id, i);
    collections::lemma_cloud_index_is(sv.collections, cloud_id, j);
}

/// In a well-formed store, at most one folder row maps to a given
/// remote id.
pub proof fn lemma_no_duplicate_mapping_folder(sv: StoreView, cloud_id: Seq<char>, i: int, j: int)
    requires
        sv.wf(),
        0 <= i < sv.folders.len(),
        0 <= j < sv.folders.len(),
        sv.folders[i].cloud_id == Some(cloud_id),
        sv.folders[j].cloud_id == Some(cloud_id),
    ensures
        i == j,
{
    folders::lemma_cloud_index_is(sv.folders, cloud_id, i);
    folders::lemma_cloud_index_is(sv.folders, cloud_id, j);
}

/// In a well-formed store, at most one request row maps to a given
/// remote id.
pub proof fn lemma_no_duplicate_mapping_request(sv: StoreView, cloud_id: Seq<char>, i: int, j: int)
    requires
        sv.wf(),
        0 <= i < sv.requests.len(),
        0 <= j < sv.requests.len(),
        sv.requests[i].cloud_id == Some(cloud_id),
        sv.requests[j].cloud_id == Some(cloud_id),
    ensures
        i == j,
{
    requests::lemma_cloud_index_is(sv.requests, cloud_id, i);
    requests::lemma_cloud_index_is(sv.requests, cloud_id, j);
}

/// Dirty gating for collections: a mutation never dirties a row without
/// a team anchor (and in a well-formed store such a row is not dirty to
/// begin with), while a mutation of an anchored row always dirties it.
pub proof fn lemma_dirty_gating_collection(c: CollectionView, u: UpdateCollection, now: Seq<char>)
    ensures
        !collections::anchored(c) ==> collections::spec_updated(c, u, now).dirty == c.dirty,
        collections::anchored(c) ==> collections::spec_updated(c, u, now).dirty,
        !collections::anchored(c) ==> collections::spec_marked(c).dirty == c.dirty,
        collections::anchored(c) ==> collections::spec_marked(c).dirty,
{
}

/// Dirty gating for folders, keyed on their own remote id.
pub proof fn lemma_dirty_gating_folder(f: FolderView, u: UpdateFolder, now: Seq<char>)
    ensures
        !folders::anchored(f) ==> folders::spec_updated(f, u, now).dirty == f.dirty,
        folders::anchored(f) ==> folders::spec_updated(f, u, now).dirty,
        !folders::anchored(f) ==> folders::spec_marked(f).dirty == f.dirty,
        folders::anchored(f) ==> folders::spec_marked(f).dirty,
{
}

/// Dirty gating for requests, keyed on their own remote id.
pub proof fn lemma_dirty_gating_request(r: RequestView, u: UpdateRequest, now: Seq<char>)
    ensures
        !requests::anchored(r) ==> requests::spec_updated(r, u, now).dirty == r.dirty,
        requests::anchored(r) ==> requests::spec_updated(r, u, now).dirty,
        !requests::anchored(r) ==> requests::spec_marked(r).dirty == r.dirty,
        requests::anchored(r) ==> requests::spec_marked(r).dirty,
{
}

/// In a well-formed store no unanchored row is dirty, so a mutation of
/// an unanchored row leaves `dirty` false.
pub proof fn lemma_unanchored_never_dirty(sv: StoreView, i: int)
    requires
        sv.wf(),
    ensures
        0 <= i < sv.collections.len() && !collections::anchored(sv.collections[i])
            ==> !sv.collections[i].dirty,
        0 <= i < sv.folders.len() && !folders::anchored(sv.folders[i]) ==> !sv.folders[i].dirty,
        0 <= i < sv.requests.len() && !requests::anchored(sv.requests[i]) ==> !sv.requests[i].dirty,
{
}

/// Binding clears the dirty flag and stamps the sync time in one step:
/// the bound row carries `dirty == false`, `synced_at == Some(now)` and
/// the remote identity together, with its local id untouched — there is
/// no state in which one holds without the others.
pub proof fn lemma_bind_atomic_collection(
    c: CollectionView,
    cloud_id: Seq<char>,
    team_id: Seq<char>,
    now: Seq<char>,
)
    ensures
        !collections::spec_bound(c, cloud_id, team_id, now).dirty,
        collections::spec_bound(c, cloud_id, team_id, now).synced_at == Some(now),
        collections::spec_bound(c, cloud_id, team_id, now).cloud_id == Some(cloud_id),
        collections::spec_bound(c, cloud_id, team_id, now).team_id == Some(team_id),
        collections::spec_bound(c, cloud_id, team_id, now).id == c.id,
{
}

/// Binding a folder clears dirty and stamps the sync time in one step.
pub proof fn lemma_bind_atomic_folder(f: FolderView, cloud_id: Seq<char>, now: Seq<char>)
    ensures
        !folders::spec_bound(f, cloud_id, now).dirty,
        folders::spec_bound(f, cloud_id, now).synced_at == Some(now),
        folders::spec_bound(f, cloud_id, now).cloud_id == Some(cloud_id),
        folders::spec_bound(f, cloud_id, now).id == f.id,
{
}

/// Binding a request clears dirty and stamps the sync time in one step.
pub proof fn lemma_bind_atomic_request(r: RequestView, cloud_id: Seq<char>, now: Seq<char>)
    ensures
        !requests::spec_bound(r, cloud_id, now).dirty,
        requests::spec_bound(r, cloud_id, now).synced_at == Some(now),
        requests::spec_bound(r, cloud_id, now).cloud_id == Some(cloud_id),
        requests::spec_bound(r, cloud_id, now).id == r.id,
{
}

/// A sequence of recorded transmission failures, each naming an entry
/// id and an error, applied oldest first.
pub open spec fn apply_fails(
    q: Seq<QueueEntryView>,
    fs: Seq<(i64, Seq<char>)>,
) -> Seq<QueueEntryView>
    decreases fs.len(),
{
    if fs.len() == 0 {
        q
    } else {
        apply_fails(sync::spec_fail_step(q, fs.first().0, fs.first().1), fs.drop_first())
    }
}

/// Recording failures never drops, reorders or re-identifies queue
/// entries: after any sequence of failures the queue holds the same
/// entries at the same positions, each unchanged but for its retry
/// accounting.
pub proof fn lemma_fails_preserve_entries(q: Seq<QueueEntryView>, fs: Seq<(i64, Seq<char>)>)
    ensures
        apply_fails(q, fs).len() == q.len(),
        forall|i: int|
            0 <= i < q.len() ==> {
                let e = #[trigger] apply_fails(q, fs)[i];
                &&& e.id == q[i].id
                &&& e.entity_kind == q[i].entity_kind
                &&& e.local_id == q[i].local_id
                &&& e.operation == q[i].operation
                &&& e.payload == q[i].payload
                &&& e.queued_at == q[i].queued_at
            },
    decreases fs.len(),
{
    if fs.len() > 0 {
        let q1 = sync::spec_fail_step(q, fs.first().0, fs.first().1);
        lemma_fails_preserve_entries(q1, fs.drop_first());
    }
}

/// Queue order is first-in-first-out regardless of failures: take a
/// queue in enqueue order (ids strictly ascending, as the store keeps
/// it), record any failures against it, and ask for the pending
/// entries — they come back oldest first, entry for entry the ones
/// that were enqueued, in the order they were enqueued.
pub proof fn lemma_queue_fifo(q: Seq<QueueEntryView>, fs: Seq<(i64, Seq<char>)>, limit: i32)
    requires
        forall|a: int, b: int| 0 <= a < b < q.len() ==> q[a].id < q[b].id,
    ensures
        ({
            let p = apply_fails(q, fs).take(sync::pending_count(q.len() as int, limit));
            &&& p.len() == sync::pending_count(q.len() as int, limit)
            &&& forall|i: int|
                0 <= i < p.len() ==> {
                    let e = #[trigger] p[i];
                    &&& e.id == q[i].id
                    &&& e.entity_kind == q[i].entity_kind
                    &&& e.local_id == q[i].local_id
                    &&& e.operation == q[i].operation
                    &&& e.payload == q[i].payload
                    &&& e.queued_at == q[i].queued_at
                }
            &&& forall|a: int, b: int| 0 <= a < b < p.len() ==> p[a].id < p[b].id
        }),
{
    lemma_fails_preserve_entries(q, fs);
}

} // verus!
