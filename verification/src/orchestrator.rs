use vstd::prelude::*;
use crate::collections;
use crate::collections::Collection;
use crate::error::SyncError;
use crate::folders;
use crate::folders::Folder;
use crate::kind::EntityKind;
use crate::requests;
use crate::requests::SavedRequest;
use crate::store::keep;
use crate::store::views;
use crate::store::StoreView;
use crate::store::SyncStore;
use crate::strutil::opt_ref_view;

verus! {

/// Everything that needs pushing, grouped by kind; within a kind the
/// rows come in store order, so the enumeration is deterministic.
pub struct DirtyRecords {
    pub collections: Vec<Collection>,
    pub folders: Vec<Folder>,
    pub requests: Vec<SavedRequest>,
}

/// The dirty set across the three kinds: every entity with `dirty`
/// set and a sync anchor, ordered by kind, then by store order.
pub fn list_dirty(store: &SyncStore) -> (r: DirtyRecords)
    ensures
        views(r.collections@) == keep(store@.collections, collections::dirty_pred()),
        views(r.folders@) == keep(store@.folders, folders::dirty_pred()),
        views(r.requests@) == keep(store@.requests, requests::dirty_pred()),
{
    DirtyRecords {
        collections: collections::get_dirty(store),
        folders: folders::get_dirty(store),
        requests: requests::get_dirty(store),
    }
}

/// Flags one entity as needing a push, with the kind-appropriate
/// shareability gate: a collection dirties only when it has a team, a
/// folder or request only when it has a remote id.
pub fn mark_dirty(store: &mut SyncStore, entity_kind: EntityKind, local_id: &str)
    requires
        old(store).wf(),
    ensures
        final(store).wf(),
        entity_kind == EntityKind::Collection ==> ({
            let s0 = old(store)@.collections;
            if collections::has_id(s0, local_id@) {
                final(store)@ == (StoreView {
                    collections: s0.update(
                        collections::id_index(s0, local_id@),
                        collections::spec_marked(s0[collections::id_index(s0, local_id@)]),
                    ),
                    ..old(store)@
                })
            } else {
                final(store)@ == old(store)@
            }
        }),
        entity_kind == EntityKind::Folder ==> ({
            let s0 = old(store)@.folders;
            if folders::has_id(s0, local_id@) {
                final(store)@ == (StoreView {
                    folders: s0.update(
                        folders::id_index(s0, local_id@),
                        folders::spec_marked(s0[folders::id_index(s0, local_id@)]),
                    ),
                    ..old(store)@
                })
            } else {
                final(store)@ == old(store)@
            }
        }),
        entity_kind == EntityKind::Request ==> ({
            let s0 = old(store)@.requests;
            if requests::has_id(s0, local_id@) {
                final(store)@ == (StoreView {
                    requests: s0.update(
                        requests::id_index(s0, local_id@),
                        requests::spec_marked(s0[requests::id_index(s0, local_id@)]),
                    ),
                    ..old(store)@
                })
            } else {
                final(store)@ == old(store)@
            }
        }),
{
    match entity_kind {
        EntityKind::Collection => collections::mark_dirty(store, local_id),
        EntityKind::Folder => folders::mark_dirty(store, local_id),
        EntityKind::Request => requests::mark_dirty(store, local_id),
    }
}

/// Binds one entity to its remote identity after a successful push; the
/// team accompanies the bind only for collections, whose anchor it is.
pub fn mark_synced(
    store: &mut SyncStore,
    entity_kind: EntityKind,
    local_id: &str,
    cloud_id: &str,
    team_id: Option<&str>,
    now: &str,
) -> (r: Result<(), SyncError>)
    requires
        old(store).wf(),
        entity_kind == EntityKind::Collection ==> team_id is Some,
    ensures
        final(store).wf(),
        entity_kind == EntityKind::Collection ==> ({
            let s0 = old(store)@.collections;
            if !collections::has_id(s0, local_id@) {
                r == Err::<(), SyncError>(SyncError::NotFound) && final(store)@ == old(store)@
            } else if collections::bind_conflict(
                s0,
                collections::id_index(s0, local_id@),
                cloud_id@,
            ) {
                r == Err::<(), SyncError>(SyncError::ConflictingIdentity) && final(store)@ == old(
                    store,
                )@
            } else {
                r == Ok::<(), SyncError>(()) && final(store)@ == (StoreView {
                    collections: s0.update(
                        collections::id_index(s0, local_id@),
                        collections::spec_bound(
                            s0[collections::id_index(s0, local_id@)],
                            cloud_id@,
                            team_id->0@,
                            now@,
                        ),
                    ),
                    ..old(store)@
                })
            }
        }),
        entity_kind == EntityKind::Folder ==> ({
            let s0 = old(store)@.folders;
            if !folders::has_id(s0, local_id@) {
                r == Err::<(), SyncError>(SyncError::NotFound) && final(store)@ == old(store)@
            } else if folders::bind_conflict(s0, folders::id_index(s0, local_id@), cloud_id@) {
                r == Err::<(), SyncError>(SyncError::ConflictingIdentity) && final(store)@ == old(
                    store,
                )@
            } else {
                r == Ok::<(), SyncError>(()) && final(store)@ == (StoreView {
                    folders: s0.update(
                        folders::id_index(s0, local_id@),
                        folders::spec_bound(s0[folders::id_index(s0, local_id@)], cloud_id@, now@),
                    ),
                    ..old(store)@
                })
            }
        }),
        entity_kind == EntityKind::Request ==> ({
            let s0 = old(store)@.requests;
            if !requests::has_id(s0, local_id@) {
                r == Err::<(), SyncError>(SyncError::NotFound) && final(store)@ == old(store)@
            } else if requests::bind_conflict(s0, requests::id_index(s0, local_id@), cloud_id@) {
                r == Err::<(), SyncError>(SyncError::ConflictingIdentity) && final(store)@ == old(
                    store,
                )@
            } else {
                r == Ok::<(), SyncError>(()) && final(store)@ == (StoreView {
                    requests: s0.update(
                        requests::id_index(s0, local_id@),
                        requests::spec_bound(
                            s0[requests::id_index(s0, local_id@)],
                            cloud_id@,
                            now@,
                        ),
                    ),
                    ..old(store)@
                })
            }
        }),
{
    match entity_kind {
        EntityKind::Collection => {
            let team = match team_id {
                Some(t) => t,
                None => {
                    return Err(SyncError::NotFound);
                },
            };
            collections::mark_synced(store, local_id, cloud_id, team, now)
        },
        EntityKind::Folder => folders::mark_synced(store, local_id, cloud_id, now),
        EntityKind::Request => requests::mark_synced(store, local_id, cloud_id, now),
    }
}

/// Applies an inbound cloud collection: collections have no parents, so
/// this reconciles directly.
pub fn pull_collection(
    store: &mut SyncStore,
    cloud_id: &str,
    team_id: &str,
    name: &str,
    description: &str,
    default_headers: &str,
    default_auth: &str,
    variables: &str,
    sort_order: i32,
    now: &str,
) -> (r: Result<Collection, SyncError>)
    requires
        old(store).wf(),
    ensures
        final(store).wf(),
        collections::has_cloud(old(store)@.collections, cloud_id@) ==> r is Ok,
        r matches Ok(c) ==> {
            &&& !collections::has_cloud(old(store)@.collections, cloud_id@) ==> !collections::has_id(
                old(store)@.collections,
                c@.id,
            )
            &&& c@ == collections::spec_upsert_row(
                old(store)@.collections,
                c@.id,
                cloud_id@,
                team_id@,
                name@,
                description@,
                default_headers@,
                default_auth@,
                variables@,
                sort_order,
                now@,
            )
            &&& final(store)@ == (StoreView {
                collections: collections::spec_upsert(
                    old(store)@.collections,
                    c@.id,
                    cloud_id@,
                    team_id@,
                    name@,
                    description@,
                    default_headers@,
                    default_auth@,
                    variables@,
                    sort_order,
                    now@,
                ),
                ..old(store)@
            })
        },
        r is Err ==> r == Err::<Collection, SyncError>(SyncError::StoreUnavailable)
            && final(store)@ == old(store)@,
{
    collections::upsert_from_cloud(
        store,
        cloud_id,
        team_id,
        name,
        description,
        default_headers,
        default_auth,
        variables,
        sort_order,
        now,
    )
}

/// Whether a folder's parent references already exist locally.
pub open spec fn folder_parents_ok(
    sv: StoreView,
    collection_id: Seq<char>,
    parent_folder_id: Option<Seq<char>>,
) -> bool {
    folders::parent_refs_exist(sv, collection_id, parent_folder_id)
}

/// Applies an inbound cloud folder.  The referenced collection (and
/// parent folder, if any) must already have been reconciled locally:
/// a missing parent fails with `DanglingParentReference` rather than
/// inserting an orphan row.  Parent references are local ids, resolved
/// by the caller from remote ids before calling down.
pub fn pull_folder(
    store: &mut SyncStore,
    cloud_id: &str,
    collection_id: &str,
    parent_folder_id: Option<&str>,
    name: &str,
    default_headers: &str,
    default_auth: &str,
    variables: &str,
    sort_order: i32,
    now: &str,
) -> (r: Result<Folder, SyncError>)
    requires
        old(store).wf(),
    ensures
        final(store).wf(),
        !folder_parents_ok(old(store)@, collection_id@, opt_ref_view(parent_folder_id)) ==> r
            == Err::<Folder, SyncError>(SyncError::DanglingParentReference) && final(store)@ == old(
            store,
        )@,
        folder_parents_ok(old(store)@, collection_id@, opt_ref_view(parent_folder_id)) ==> {
            &&& folders::has_cloud(old(store)@.folders, cloud_id@) ==> r is Ok
            &&& r matches Ok(c) ==> {
                &&& !folders::has_cloud(old(store)@.folders, cloud_id@) ==> !folders::has_id(
                    old(store)@.folders,
                    c@.id,
                )
                &&& c@ == folders::spec_upsert_row(
                    old(store)@.folders,
                    c@.id,
                    cloud_id@,
                    collection_id@,
                    opt_ref_view(parent_folder_id),
                    name@,
                    default_headers@,
                    default_auth@,
                    variables@,
                    sort_order,
                    now@,
                )
                &&& final(store)@ == (StoreView {
                    folders: folders::spec_upsert(
                        old(store)@.folders,
                        c@.id,
                        cloud_id@,
                        collection_id@,
                        opt_ref_view(parent_folder_id),
                        name@,
                        default_headers@,
                        default_auth@,
                        variables@,
                        sort_order,
                        now@,
                    ),
                    ..old(store)@
                })
            }
            &&& r is Err ==> r == Err::<Folder, SyncError>(SyncError::StoreUnavailable)
                && final(store)@ == old(store)@
        },
{
    if collections::get_by_id(store, collection_id).is_err() {
        return Err(SyncError::DanglingParentReference);
    }
    match parent_folder_id {
        Some(p) => {
            if folders::get_by_id(store, p).is_err() {
                return Err(SyncError::DanglingParentReference);
            }
        },
        None => {},
    }
    folders::upsert_from_cloud(
        store,
        cloud_id,
        collection_id,
        parent_folder_id,
        name,
        default_headers,
        default_auth,
        variables,
        sort_order,
        now,
    )
}

/// Whether a request's parent references already exist locally.
pub open spec fn request_parents_ok(
    sv: StoreView,
    collection_id: Seq<char>,
    folder_id: Option<Seq<char>>,
) -> bool {
    requests::parent_refs_exist(sv, collection_id, folder_id)
}

/// Applies an inbound cloud request.  The referenced collection (and
/// folder, if any) must already have been reconciled locally: a missing
/// parent fails with `DanglingParentReference` rather than inserting an
/// orphan row.  Parent references are local ids, resolved by the caller
/// from remote ids before calling down.
pub fn pull_request(
    store: &mut SyncStore,
    cloud_id: &str,
    collection_id: &str,
    folder_id: Option<&str>,
    name: &str,
    method: &str,
    url: &str,
    headers: &str,
    params: &str,
    body: &str,
    auth: &str,
    variables: &str,
    sort_order: i32,
    now: &str,
) -> (r: Result<SavedRequest, SyncError>)
    requires
        old(store).wf(),
    ensures
        final(store).wf(),
        !request_parents_ok(old(store)@, collection_id@, opt_ref_view(folder_id)) ==> r
            == Err::<SavedRequest, SyncError>(SyncError::DanglingParentReference) && final(store)@
            == old(store)@,
        request_parents_ok(old(store)@, collection_id@, opt_ref_view(folder_id)) ==> {
            &&& requests::has_cloud(old(store)@.requests, cloud_id@) ==> r is Ok
            &&& r matches Ok(c) ==> {
                &&& !requests::has_cloud(old(store)@.requests, cloud_id@) ==> !requests::has_id(
                    old(store)@.requests,
                    c@.id,
                )
                &&& c@ == requests::spec_upsert_row(
                    old(store)@.requests,
                    c@.id,
                    cloud_id@,
                    collection_id@,
                    opt_ref_view(folder_id),
                    name@,
                    method@,
                    url@,
                    headers@,
                    params@,
                    body@,
                    auth@,
                    variables@,
                    sort_order,
                    now@,
                )
                &&& final(store)@ == (StoreView {
                    requests: requests::spec_upsert(
                        old(store)@.requests,
                        c@.id,
                        cloud_id@,
                        collection_id@,
                        opt_ref_view(folder_id),
                        name@,
                        method@,
                        url@,
                        headers@,
                        params@,
                        body@,
                        auth@,
                        variables@,
                        sort_order,
                        now@,
                    ),
                    ..old(store)@
                })
            }
            &&& r is Err ==> r == Err::<SavedRequest, SyncError>(SyncError::StoreUnavailable)
                && final(store)@ == old(store)@
        },
{
    if collections::get_by_id(store, collection_id).is_err() {
        return Err(SyncError::DanglingParentReference);
    }
    match folder_id {
        Some(p) => {
            if folders::get_by_id(store, p).is_err() {
                return Err(SyncError::DanglingParentReference);
            }
        },
        None => {},
    }
    requests::upsert_from_cloud(
        store,
        cloud_id,
        collection_id,
        folder_id,
        name,
        method,
        url,
        headers,
        params,
        body,
        auth,
        variables,
        sort_order,
        now,
    )
}

/// Physically removes an entity through the confirmed-synced path.
/// Only a row carrying its sync anchor may leave this way: the result
/// says whether the row was removed (`Ok(true)`) or refused for want of
/// an anchor (`Ok(false)`), in which case the ordinary local delete is
/// the caller's path.  This guards against deleting a record the
/// remote side still believes exists but whose deletion was never
/// queued.
pub fn hard_delete_synced(store: &mut SyncStore, entity_kind: EntityKind, local_id: &str) -> (r:
    Result<bool, SyncError>)
    requires
        old(store).wf(),
    ensures
        final(store).wf(),
        entity_kind == EntityKind::Collection ==> ({
            let s0 = old(store)@.collections;
            if !collections::has_id(s0, local_id@) {
                r == Err::<bool, SyncError>(SyncError::NotFound) && final(store)@ == old(store)@
            } else if collections::anchored(s0[collections::id_index(s0, local_id@)]) {
                r == Ok::<bool, SyncError>(true) && final(store)@ == (StoreView {
                    collections: s0.remove(collections::id_index(s0, local_id@)),
                    folders: keep(old(store)@.folders, folders::other_collection_pred(local_id@)),
                    requests: keep(
                        old(store)@.requests,
                        requests::other_collection_pred(local_id@),
                    ),
                    ..old(store)@
                })
            } else {
                r == Ok::<bool, SyncError>(false) && final(store)@ == old(store)@
            }
        }),
        entity_kind == EntityKind::Folder ==> ({
            let s0 = old(store)@.folders;
            if !folders::has_id(s0, local_id@) {
                r == Err::<bool, SyncError>(SyncError::NotFound) && final(store)@ == old(store)@
            } else if folders::anchored(s0[folders::id_index(s0, local_id@)]) {
                r == Ok::<bool, SyncError>(true) && final(store)@ == (StoreView {
                    folders: keep(s0, folders::survives_pred(folders::removed_ids(s0, local_id@))),
                    requests: requests::detach_all(
                        old(store)@.requests,
                        folders::removed_ids(s0, local_id@),
                    ),
                    ..old(store)@
                })
            } else {
                r == Ok::<bool, SyncError>(false) && final(store)@ == old(store)@
            }
        }),
        entity_kind == EntityKind::Request ==> ({
            let s0 = old(store)@.requests;
            if !requests::has_id(s0, local_id@) {
                r == Err::<bool, SyncError>(SyncError::NotFound) && final(store)@ == old(store)@
            } else if requests::anchored(s0[requests::id_index(s0, local_id@)]) {
                r == Ok::<bool, SyncError>(true) && final(store)@ == (StoreView {
                    requests: s0.remove(requests::id_index(s0, local_id@)),
                    ..old(store)@
                })
            } else {
                r == Ok::<bool, SyncError>(false) && final(store)@ == old(store)@
            }
        }),
{
    match entity_kind {
        EntityKind::Collection => {
            match collections::get_by_id(store, local_id) {
                Err(_) => Err(SyncError::NotFound),
                Ok(row) => {
                    if row.team_id.is_some() {
                        collections::delete(store, local_id);
                        Ok(true)
                    } else {
                        Ok(false)
                    }
                },
            }
        },
        EntityKind::Folder => {
            match folders::get_by_id(store, local_id) {
                Err(_) => Err(SyncError::NotFound),
                Ok(row) => {
                    if row.cloud_id.is_some() {
                        folders::delete(store, local_id);
                        Ok(true)
                    } else {
                        Ok(false)
                    }
                },
            }
        },
        EntityKind::Request => {
            match requests::get_by_id(store, local_id) {
                Err(_) => Err(SyncError::NotFound),
                Ok(row) => {
                    if row.cloud_id.is_some() {
                        requests::delete(store, local_id);
                        Ok(true)
                    } else {
                        Ok(false)
                    }
                },
            }
        },
    }
}

} // verus!
