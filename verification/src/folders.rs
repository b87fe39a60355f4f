use vstd::prelude::*;
use crate::error::SyncError;
use crate::ids::new_local_id;
use crate::store::keep;
use crate::store::lemma_keep_membership;
use crate::store::lemma_keep_pairwise;
use crate::store::lemma_remove_pairwise;
use crate::store::lemma_views_insert;
use crate::store::lemma_views_push;
use crate::store::lemma_views_remove;
use crate::store::lemma_views_update;
use crate::store::views;
use crate::store::StoreView;
use crate::store::SyncStore;
use crate::requests::SavedRequest;
use crate::strutil::clone_opt;
use crate::strutil::contains_id;
use crate::strutil::contains_id_upto;
use crate::strutil::id_set;
use crate::strutil::lemma_id_set_push;
use crate::strutil::opt_is;
use crate::strutil::opt_ref_view;
use crate::strutil::opt_view;
use crate::strutil::own_opt;
use crate::strutil::lemma_lex_le_total;
use crate::strutil::lemma_lex_le_trans;
use crate::strutil::lex_le;
use crate::strutil::str_eq;
use crate::strutil::str_le;

verus! {

/// A folder inside a collection.  `cloud_id` is the sync anchor: a
/// folder tracks its own remote identity rather than inheriting its
/// collection's shared state.
#[derive(Debug)]
pub struct Folder {
    pub id: String,
    pub collection_id: String,
    pub parent_folder_id: Option<String>,
    pub name: String,
    pub default_headers: String,
    pub default_auth: String,
    pub variables: String,
    pub sort_order: i32,
    pub created_at: String,
    pub cloud_id: Option<String>,
    pub synced_at: Option<String>,
    pub dirty: bool,
}

#[verifier::ext_equal]
pub ghost struct FolderView {
    pub id: Seq<char>,
    pub collection_id: Seq<char>,
    pub parent_folder_id: Option<Seq<char>>,
    pub name: Seq<char>,
    pub default_headers: Seq<char>,
    pub default_auth: Seq<char>,
    pub variables: Seq<char>,
    pub sort_order: i32,
    pub created_at: Seq<char>,
    pub cloud_id: Option<Seq<char>>,
    pub synced_at: Option<Seq<char>>,
    pub dirty: bool,
}

impl View for Folder {
    type V = FolderView;

    open spec fn view(&self) -> FolderView {
        FolderView {
            id: self.id@,
            collection_id: self.collection_id@,
            parent_folder_id: opt_view(self.parent_folder_id),
            name: self.name@,
            default_headers: self.default_headers@,
            default_auth: self.default_auth@,
            variables: self.variables@,
            sort_order: self.sort_order,
            created_at: self.created_at@,
            cloud_id: opt_view(self.cloud_id),
            synced_at: opt_view(self.synced_at),
            dirty: self.dirty,
        }
    }
}

impl Clone for Folder {
    fn clone(&self) -> (res: Self)
        ensures
            res@ == self@,
    {
        Folder {
            id: self.id.clone(),
            collection_id: self.collection_id.clone(),
            parent_folder_id: clone_opt(&self.parent_folder_id),
            name: self.name.clone(),
            default_headers: self.default_headers.clone(),
            default_auth: self.default_auth.clone(),
            variables: self.variables.clone(),
            sort_order: self.sort_order,
            created_at: self.created_at.clone(),
            cloud_id: clone_opt(&self.cloud_id),
            synced_at: clone_opt(&self.synced_at),
            dirty: self.dirty,
        }
    }
}

/// The sync anchor of a folder: its own remote identity.
pub open spec fn anchored(f: FolderView) -> bool {
    f.cloud_id is Some
}

/// The folders that survive deleting a whole collection.
pub open spec fn other_collection_pred(collection_id: Seq<char>) -> spec_fn(FolderView) -> bool {
    |f: FolderView| f.collection_id != collection_id
}

pub open spec fn unique_ids(s: Seq<FolderView>) -> bool {
    forall|i: int, j: int| 0 <= i < j < s.len() ==> s[i].id != s[j].id
}

/// At most one local row maps to a given remote id.
pub open spec fn unique_cloud_ids(s: Seq<FolderView>) -> bool {
    forall|i: int, j: int|
        0 <= i < j < s.len() && s[i].cloud_id is Some ==> s[i].cloud_id != s[j].cloud_id
}

/// A row without a sync anchor is never dirty.
pub open spec fn dirty_anchored(s: Seq<FolderView>) -> bool {
    forall|i: int| 0 <= i < s.len() ==> (s[i].dirty ==> anchored(s[i]))
}

pub open spec fn has_id(s: Seq<FolderView>, id: Seq<char>) -> bool {
    exists|i: int| 0 <= i < s.len() && s[i].id == id
}

pub open spec fn id_index(s: Seq<FolderView>, id: Seq<char>) -> int {
    choose|i: int| 0 <= i < s.len() && s[i].id == id
}

pub open spec fn has_cloud(s: Seq<FolderView>, cloud: Seq<char>) -> bool {
    exists|i: int| 0 <= i < s.len() && s[i].cloud_id == Some(cloud)
}

pub open spec fn cloud_index(s: Seq<FolderView>, cloud: Seq<char>) -> int {
    choose|i: int| 0 <= i < s.len() && s[i].cloud_id == Some(cloud)
}

/// A partial update: a field is overwritten exactly when it is `Some`.
#[derive(Debug)]
pub struct UpdateFolder {
    pub name: Option<String>,
    pub default_headers: Option<String>,
    pub default_auth: Option<String>,
    pub variables: Option<String>,
}

impl UpdateFolder {
    /// Whether the update writes nothing: every field is `None`.
    pub open spec fn spec_is_noop(self) -> bool {
        &&& self.name is None
        &&& self.default_headers is None
        &&& self.default_auth is None
        &&& self.variables is None
    }

    pub fn is_noop(&self) -> (r: bool)
        ensures
            r == self.spec_is_noop(),
    {
        self.name.is_none() && self.default_headers.is_none() && self.default_auth.is_none()
            && self.variables.is_none()
    }
}

/// With unique remote ids, any row carrying `Some(cloud)` is the row
/// `cloud_index` names.
pub proof fn lemma_cloud_index_is(s: Seq<FolderView>, cloud: Seq<char>, i: int)
    requires
        unique_cloud_ids(s),
        0 <= i < s.len(),
        s[i].cloud_id == Some(cloud),
    ensures
        has_cloud(s, cloud),
        cloud_index(s, cloud) == i,
{
    assert(has_cloud(s, cloud));
    let k = cloud_index(s, cloud);
    if k < i {
        assert(s[k].cloud_id != s[i].cloud_id);
    } else if i < k {
        assert(s[i].cloud_id != s[k].cloud_id);
    }
}

/// With unique local ids, any row carrying `id` is the row `id_index`
/// names.
pub proof fn lemma_id_index_is(s: Seq<FolderView>, id: Seq<char>, i: int)
    requires
        unique_ids(s),
        0 <= i < s.len(),
        s[i].id == id,
    ensures
        has_id(s, id),
        id_index(s, id) == i,
{
    assert(has_id(s, id));
    let k = id_index(s, id);
    if k < i {
        assert(s[k].id != s[i].id);
    } else if i < k {
        assert(s[i].id != s[k].id);
    }
}

/// Replacing row `i` by one with the same local id, a permissible
/// remote id and a gated dirty flag keeps the store invariants.
pub proof fn lemma_update_wf(s: Seq<FolderView>, i: int, c: FolderView)
    requires
        unique_ids(s),
        unique_cloud_ids(s),
        dirty_anchored(s),
        0 <= i < s.len(),
        c.id == s[i].id,
        c.dirty ==> anchored(c),
        c.cloud_id is Some ==> c.cloud_id == s[i].cloud_id || (forall|j: int|
            0 <= j < s.len() && j != i ==> s[j].cloud_id != c.cloud_id),
    ensures
        unique_ids(s.update(i, c)),
        unique_cloud_ids(s.update(i, c)),
        dirty_anchored(s.update(i, c)),
{
    let t = s.update(i, c);
    assert forall|a: int, b: int|
        0 <= a < b < t.len() && t[a].cloud_id is Some implies t[a].cloud_id != t[b].cloud_id by {
        if a != i && b != i {
            assert(s[a].cloud_id != s[b].cloud_id);
        } else if a == i {
            if c.cloud_id == s[i].cloud_id {
                assert(s[a].cloud_id != s[b].cloud_id);
            }
        } else {
            if s[a].cloud_id == c.cloud_id {
                if c.cloud_id == s[i].cloud_id {
                    assert(s[a].cloud_id != s[i].cloud_id);
                } else {
                    assert(s[a].cloud_id != c.cloud_id);
                }
            }
        }
    }
}

/// Appending a row with a fresh local id, an absent remote id and a
/// gated dirty flag keeps the store invariants.
pub proof fn lemma_push_wf(s: Seq<FolderView>, c: FolderView)
    requires
        unique_ids(s),
        unique_cloud_ids(s),
        dirty_anchored(s),
        !has_id(s, c.id),
        c.cloud_id matches Some(cl) ==> !has_cloud(s, cl),
        c.dirty ==> anchored(c),
    ensures
        unique_ids(s.push(c)),
        unique_cloud_ids(s.push(c)),
        dirty_anchored(s.push(c)),
{
    let t = s.push(c);
    assert forall|a: int, b: int| 0 <= a < b < t.len() implies t[a].id != t[b].id by {
        if b == s.len() {
            assert(!(s[a].id == c.id));
        }
    }
    assert forall|a: int, b: int|
        0 <= a < b < t.len() && t[a].cloud_id is Some implies t[a].cloud_id != t[b].cloud_id by {
        if b == s.len() {
            if c.cloud_id is Some {
                let cl = c.cloud_id->0;
                assert(!(s[a].cloud_id == Some(cl)));
            }
        }
    }
}

/// The first row holding `cloud_id` as its remote id, if any.
fn find_by_cloud(v: &Vec<Folder>, cloud_id: &str) -> (r: Option<usize>)
    ensures
        match r {
            Some(i) => i < v@.len() && views(v@)[i as int].cloud_id == Some(cloud_id@),
            None => !has_cloud(views(v@), cloud_id@),
        },
{
    let mut i: usize = 0;
    while i < v.len()
        invariant
            i <= v@.len(),
            forall|j: int| 0 <= j < i ==> views(v@)[j].cloud_id != Some(cloud_id@),
        decreases v@.len() - i,
    {
        if opt_is(&v[i].cloud_id, cloud_id) {
            return Some(i);
        }
        i = i + 1;
    }
    None
}

/// The first row with the given local id, if any.
fn find_by_id(v: &Vec<Folder>, id: &str) -> (r: Option<usize>)
    ensures
        match r {
            Some(i) => i < v@.len() && views(v@)[i as int].id == id@,
            None => !has_id(views(v@), id@),
        },
{
    let mut i: usize = 0;
    while i < v.len()
        invariant
            i <= v@.len(),
            forall|j: int| 0 <= j < i ==> views(v@)[j].id != id@,
        decreases v@.len() - i,
    {
        if str_eq(v[i].id.as_str(), id) {
            return Some(i);
        }
        i = i + 1;
    }
    None
}

/// An existing row overwritten by an inbound cloud record: content and
/// parent references are taken from the payload, the sync stamp is
/// refreshed and the dirty flag cleared; local identity and creation
/// data stay.
pub open spec fn merged_from_cloud(
    f: FolderView,
    collection_id: Seq<char>,
    parent_folder_id: Option<Seq<char>>,
    name: Seq<char>,
    default_headers: Seq<char>,
    default_auth: Seq<char>,
    variables: Seq<char>,
    sort_order: i32,
    now: Seq<char>,
) -> FolderView {
    FolderView {
        collection_id: collection_id,
        parent_folder_id: parent_folder_id,
        name: name,
        default_headers: default_headers,
        default_auth: default_auth,
        variables: variables,
        sort_order: sort_order,
        synced_at: Some(now),
        dirty: false,
        ..f
    }
}

/// A new local row cached from an inbound cloud record.
pub open spec fn fresh_from_cloud(
    local_id: Seq<char>,
    cloud_id: Seq<char>,
    collection_id: Seq<char>,
    parent_folder_id: Option<Seq<char>>,
    name: Seq<char>,
    default_headers: Seq<char>,
    default_auth: Seq<char>,
    variables: Seq<char>,
    sort_order: i32,
    now: Seq<char>,
) -> FolderView {
    FolderView {
        id: local_id,
        collection_id: collection_id,
        parent_folder_id: parent_folder_id,
        name: name,
        default_headers: default_headers,
        default_auth: default_auth,
        variables: variables,
        sort_order: sort_order,
        created_at: now,
        cloud_id: Some(cloud_id),
        synced_at: Some(now),
        dirty: false,
    }
}

/// The reconciling upsert: update the row already mapped to `cloud_id`,
/// else insert a new row under `local_id`.
pub open spec fn spec_upsert(
    s: Seq<FolderView>,
    local_id: Seq<char>,
    cloud_id: Seq<char>,
    collection_id: Seq<char>,
    parent_folder_id: Option<Seq<char>>,
    name: Seq<char>,
    default_headers: Seq<char>,
    default_auth: Seq<char>,
    variables: Seq<char>,
    sort_order: i32,
    now: Seq<char>,
) -> Seq<FolderView> {
    if has_cloud(s, cloud_id) {
        s.update(
            cloud_index(s, cloud_id),
            merged_from_cloud(
                s[cloud_index(s, cloud_id)],
                collection_id,
                parent_folder_id,
                name,
                default_headers,
                default_auth,
                variables,
                sort_order,
                now,
            ),
        )
    } else {
        s.push(
            fresh_from_cloud(
                local_id,
                cloud_id,
                collection_id,
                parent_folder_id,
                name,
                default_headers,
                default_auth,
                variables,
                sort_order,
                now,
            ),
        )
    }
}

/// The row an upsert returns.
pub open spec fn spec_upsert_row(
    s: Seq<FolderView>,
    local_id: Seq<char>,
    cloud_id: Seq<char>,
    collection_id: Seq<char>,
    parent_folder_id: Option<Seq<char>>,
    name: Seq<char>,
    default_headers: Seq<char>,
    default_auth: Seq<char>,
    variables: Seq<char>,
    sort_order: i32,
    now: Seq<char>,
) -> FolderView {
    if has_cloud(s, cloud_id) {
        merged_from_cloud(
            s[cloud_index(s, cloud_id)],
            collection_id,
            parent_folder_id,
            name,
            default_headers,
            default_auth,
            variables,
            sort_order,
            now,
        )
    } else {
        fresh_from_cloud(
            local_id,
            cloud_id,
            collection_id,
            parent_folder_id,
            name,
            default_headers,
            default_auth,
            variables,
            sort_order,
            now,
        )
    }
}

/// Merges an inbound cloud record under a caller-chosen local id; see
/// `upsert_from_cloud`.  The parent references arrive already resolved
/// to local ids: the orchestrator resolves them before calling down.
pub fn upsert_from_cloud_with_id(
    store: &mut SyncStore,
    local_id: &str,
    cloud_id: &str,
    collection_id: &str,
    parent_folder_id: Option<&str>,
    name: &str,
    default_headers: &str,
    default_auth: &str,
    variables: &str,
    sort_order: i32,
    now: &str,
) -> (r: Result<Folder, SyncError>)
    requires
        old(store).wf(),
    ensures
        final(store).wf(),
        r is Ok <==> has_cloud(old(store)@.folders, cloud_id@) || !has_id(
            old(store)@.folders,
            local_id@,
        ),
        r matches Ok(c) ==> {
            &&& c@ == spec_upsert_row(
                old(store)@.folders,
                local_id@,
                cloud_id@,
                collection_id@,
                opt_ref_view(parent_folder_id),
                name@,
                default_headers@,
                default_auth@,
                variables@,
                sort_order,
                now@,
            )
            &&& final(store)@ == (StoreView {
                folders: spec_upsert(
                    old(store)@.folders,
                    local_id@,
                    cloud_id@,
                    collection_id@,
                    opt_ref_view(parent_folder_id),
                    name@,
                    default_headers@,
                    default_auth@,
                    variables@,
                    sort_order,
                    now@,
                ),
                ..old(store)@
            })
        },
        r is Err ==> r == Err::<Folder, SyncError>(SyncError::StoreUnavailable)
            && final(store)@ == old(store)@,
{
    let ghost s0 = store@.folders;
    match find_by_cloud(&store.folders, cloud_id) {
        Some(i) => {
            proof {
                lemma_cloud_index_is(s0, cloud_id@, i as int);
            }
            let prev = &store.folders[i];
            let row = Folder {
                id: prev.id.clone(),
                collection_id: collection_id.to_owned(),
                parent_folder_id: own_opt(&parent_folder_id),
                name: name.to_owned(),
                default_headers: default_headers.to_owned(),
                default_auth: default_auth.to_owned(),
                variables: variables.to_owned(),
                sort_order: sort_order,
                created_at: prev.created_at.clone(),
                cloud_id: clone_opt(&prev.cloud_id),
                synced_at: Some(now.to_owned()),
                dirty: false,
            };
            let result = row.clone();
            let ghost vrow = row@;
            store.folders[i] = row;
            proof {
                assert(vrow =~= merged_from_cloud(
                    s0[i as int],
                    collection_id@,
                    opt_ref_view(parent_folder_id),
                    name@,
                    default_headers@,
                    default_auth@,
                    variables@,
                    sort_order,
                    now@,
                ));
                lemma_views_update(old(store).folders@, i as int, store.folders@[i as int]);
                assert(store@.folders =~= s0.update(i as int, vrow));
                lemma_update_wf(s0, i as int, vrow);
                assert(store@ =~= (StoreView {
                    folders: spec_upsert(
                        s0,
                        local_id@,
                        cloud_id@,
                        collection_id@,
                        opt_ref_view(parent_folder_id),
                        name@,
                        default_headers@,
                        default_auth@,
                        variables@,
                        sort_order,
                        now@,
                    ),
                    ..old(store)@
                }));
            }
            Ok(result)
        },
        None => {
            if find_by_id(&store.folders, local_id).is_some() {
                return Err(SyncError::StoreUnavailable);
            }
            let row = Folder {
                id: local_id.to_owned(),
                collection_id: collection_id.to_owned(),
                parent_folder_id: own_opt(&parent_folder_id),
                name: name.to_owned(),
                default_headers: default_headers.to_owned(),
                default_auth: default_auth.to_owned(),
                variables: variables.to_owned(),
                sort_order: sort_order,
                created_at: now.to_owned(),
                cloud_id: Some(cloud_id.to_owned()),
                synced_at: Some(now.to_owned()),
                dirty: false,
            };
            let result = row.clone();
            let ghost vrow = row@;
            store.folders.push(row);
            proof {
                assert(vrow =~= fresh_from_cloud(
                    local_id@,
                    cloud_id@,
                    collection_id@,
                    opt_ref_view(parent_folder_id),
                    name@,
                    default_headers@,
                    default_auth@,
                    variables@,
                    sort_order,
                    now@,
                ));
                lemma_views_push(old(store).folders@, store.folders@[s0.len() as int]);
                assert(store@.folders =~= s0.push(vrow));
                lemma_push_wf(s0, vrow);
                assert(store@ =~= (StoreView {
                    folders: spec_upsert(
                        s0,
                        local_id@,
                        cloud_id@,
                        collection_id@,
                        opt_ref_view(parent_folder_id),
                        name@,
                        default_headers@,
                        default_auth@,
                        variables@,
                        sort_order,
                        now@,
                    ),
                    ..old(store)@
                }));
            }
            Ok(result)
        },
    }
}

/// Reconciles an inbound cloud folder: the idempotent create-or-update
/// keyed on `cloud_id`, under a freshly generated local id when the
/// record is new.  Parent references arrive already resolved to local
/// ids.  Both paths stamp `synced_at = now` and clear `dirty`.
pub fn upsert_from_cloud(
    store: &mut SyncStore,
    cloud_id: &str,
    collection_id: &str,
    parent_folder_id: Option<&str>,
    name: &str,
    default_headers: &str,
    default_auth: &str,
    variables: &str,
    sort_order: i32,
    now: &str,
) -> (r: Result<Folder, SyncError>)
    requires
        old(store).wf(),
    ensures
        final(store).wf(),
        has_cloud(old(store)@.folders, cloud_id@) ==> r is Ok,
        r matches Ok(c) ==> {
            &&& !has_cloud(old(store)@.folders, cloud_id@) ==> !has_id(old(store)@.folders, c@.id)
            &&& c@ == spec_upsert_row(
                old(store)@.folders,
                c@.id,
                cloud_id@,
                collection_id@,
                opt_ref_view(parent_folder_id),
                name@,
                default_headers@,
                default_auth@,
                variables@,
                sort_order,
                now@,
            )
            &&& final(store)@ == (StoreView {
                folders: spec_upsert(
                    old(store)@.folders,
                    c@.id,
                    cloud_id@,
                    collection_id@,
                    opt_ref_view(parent_folder_id),
                    name@,
                    default_headers@,
                    default_auth@,
                    variables@,
                    sort_order,
                    now@,
                ),
                ..old(store)@
            })
        },
        r is Err ==> r == Err::<Folder, SyncError>(SyncError::StoreUnavailable)
            && final(store)@ == old(store)@ && !has_cloud(old(store)@.folders, cloud_id@),
{
    let local_id = new_local_id();
    upsert_from_cloud_with_id(
        store,
        local_id.as_str(),
        cloud_id,
        collection_id,
        parent_folder_id,
        name,
        default_headers,
        default_auth,
        variables,
        sort_order,
        now,
    )
}

/// The greatest `sort_order` among the folders of one collection, or -1
/// of none.
pub open spec fn max_sort_order_in(s: Seq<FolderView>, collection_id: Seq<char>) -> int
    decreases s.len(),
{
    if s.len() == 0 {
        -1
    } else {
        let rest = max_sort_order_in(s.drop_last(), collection_id);
        if s.last().collection_id == collection_id && s.last().sort_order > rest {
            s.last().sort_order as int
        } else {
            rest
        }
    }
}

/// A row as `create` builds it: the default header, auth and variable
/// blobs, no sync anchor, not dirty.
pub open spec fn spec_created(
    id: Seq<char>,
    collection_id: Seq<char>,
    parent_folder_id: Option<Seq<char>>,
    name: Seq<char>,
    sort_order: i32,
    now: Seq<char>,
) -> FolderView {
    FolderView {
        id: id,
        collection_id: collection_id,
        parent_folder_id: parent_folder_id,
        name: name,
        default_headers: "[]"@,
        default_auth: "{\"type\":\"none\"}"@,
        variables: "[]"@,
        sort_order: sort_order,
        created_at: now,
        cloud_id: None,
        synced_at: None,
        dirty: false,
    }
}

/// Whether a folder's parent references already exist locally: its
/// collection, and its parent folder when it names one.
pub open spec fn parent_refs_exist(
    sv: StoreView,
    collection_id: Seq<char>,
    parent_folder_id: Option<Seq<char>>,
) -> bool {
    &&& crate::collections::has_id(sv.collections, collection_id)
    &&& (parent_folder_id matches Some(p) ==> has_id(sv.folders, p))
}

/// Creates a folder under a caller-chosen local id, appended after the
/// greatest `sort_order` within its collection.  A parent reference
/// that matches no row is refused with `NotFound`, as the durable
/// schema's foreign keys refuse it; past that, it succeeds exactly when
/// the id is fresh.
pub fn create_with_id(
    store: &mut SyncStore,
    local_id: &str,
    collection_id: &str,
    name: &str,
    parent_folder_id: Option<&str>,
    now: &str,
) -> (r: Result<Folder, SyncError>)
    requires
        old(store).wf(),
        forall|i: int|
            0 <= i < old(store)@.folders.len() ==> (#[trigger] old(store)@.folders[i].sort_order)
                < i32::MAX,
    ensures
        final(store).wf(),
        !parent_refs_exist(old(store)@, collection_id@, opt_ref_view(parent_folder_id)) ==> r
            == Err::<Folder, SyncError>(SyncError::NotFound) && final(store)@ == old(store)@,
        parent_refs_exist(old(store)@, collection_id@, opt_ref_view(parent_folder_id)) ==> {
            &&& r is Ok <==> !has_id(old(store)@.folders, local_id@)
            &&& r matches Ok(c) ==> {
                &&& c@ == spec_created(
                    local_id@,
                    collection_id@,
                    opt_ref_view(parent_folder_id),
                    name@,
                    (max_sort_order_in(old(store)@.folders, collection_id@) + 1) as i32,
                    now@,
                )
                &&& final(store)@ == (StoreView {
                    folders: old(store)@.folders.push(c@),
                    ..old(store)@
                })
            }
            &&& r is Err ==> r == Err::<Folder, SyncError>(SyncError::StoreUnavailable)
                && final(store)@ == old(store)@
        },
{
    if crate::collections::get_by_id(store, collection_id).is_err() {
        return Err(SyncError::NotFound);
    }
    match parent_folder_id {
        Some(p) => {
            if find_by_id(&store.folders, p).is_none() {
                return Err(SyncError::NotFound);
            }
        },
        None => {},
    }
    let ghost s0 = store@.folders;
    let mut m: i32 = -1;
    let mut i: usize = 0;
    proof {
        assert(s0.take(0) =~= Seq::<FolderView>::empty());
    }
    while i < store.folders.len()
        invariant
            i <= store.folders@.len(),
            s0 == store@.folders,
            store.folders@.len() == s0.len(),
            m as int == max_sort_order_in(s0.take(i as int), collection_id@),
            m == -1 || exists|j: int| 0 <= j < i && s0[j].sort_order == m,
            forall|k: int| 0 <= k < s0.len() ==> (#[trigger] s0[k].sort_order) < i32::MAX,
        decreases store.folders@.len() - i,
    {
        proof {
            assert(s0.take(i + 1 as int).drop_last() =~= s0.take(i as int));
            assert(s0.take(i + 1 as int).last() == s0[i as int]);
        }
        let f = &store.folders[i];
        if str_eq(f.collection_id.as_str(), collection_id) {
            let so = f.sort_order;
            if so > m {
                m = so;
            }
        }
        i = i + 1;
    }
    proof {
        assert(s0.take(s0.len() as int) =~= s0);
    }
    if find_by_id(&store.folders, local_id).is_some() {
        return Err(SyncError::StoreUnavailable);
    }
    let row = Folder {
        id: local_id.to_owned(),
        collection_id: collection_id.to_owned(),
        parent_folder_id: own_opt(&parent_folder_id),
        name: name.to_owned(),
        default_headers: "[]".to_owned(),
        default_auth: "{\"type\":\"none\"}".to_owned(),
        variables: "[]".to_owned(),
        sort_order: m + 1,
        created_at: now.to_owned(),
        cloud_id: None,
        synced_at: None,
        dirty: false,
    };
    let result = row.clone();
    let ghost vrow = row@;
    store.folders.push(row);
    proof {
        assert(vrow =~= spec_created(
            vrow.id,
            collection_id@,
            opt_ref_view(parent_folder_id),
            name@,
            (max_sort_order_in(s0, collection_id@) + 1) as i32,
            now@,
        ));
        lemma_views_push(old(store).folders@, store.folders@[s0.len() as int]);
        assert(store@.folders =~= s0.push(vrow));
        lemma_push_wf(s0, vrow);
        assert(store@ =~= (StoreView { folders: s0.push(vrow), ..old(store)@ }));
    }
    Ok(result)
}

/// Creates a folder under a freshly generated local id, appended after
/// the greatest `sort_order` within its collection.  A parent reference
/// that matches no row is refused with `NotFound`; the only other
/// failure is the drawn local id colliding with an existing row, which
/// leaves the store untouched; `create_with_id` carries the exact
/// success law.
pub fn create(
    store: &mut SyncStore,
    collection_id: &str,
    name: &str,
    parent_folder_id: Option<&str>,
    now: &str,
) -> (r: Result<Folder, SyncError>)
    requires
        old(store).wf(),
        forall|i: int|
            0 <= i < old(store)@.folders.len() ==> (#[trigger] old(store)@.folders[i].sort_order)
                < i32::MAX,
    ensures
        final(store).wf(),
        !parent_refs_exist(old(store)@, collection_id@, opt_ref_view(parent_folder_id)) ==> r
            == Err::<Folder, SyncError>(SyncError::NotFound) && final(store)@ == old(store)@,
        parent_refs_exist(old(store)@, collection_id@, opt_ref_view(parent_folder_id)) ==> {
            &&& r matches Ok(c) ==> {
                &&& !has_id(old(store)@.folders, c@.id)
                &&& c@ == spec_created(
                    c@.id,
                    collection_id@,
                    opt_ref_view(parent_folder_id),
                    name@,
                    (max_sort_order_in(old(store)@.folders, collection_id@) + 1) as i32,
                    now@,
                )
                &&& final(store)@ == (StoreView {
                    folders: old(store)@.folders.push(c@),
                    ..old(store)@
                })
            }
            &&& r is Err ==> r == Err::<Folder, SyncError>(SyncError::StoreUnavailable)
                && final(store)@ == old(store)@
        },
{
    let local_id = new_local_id();
    create_with_id(store, local_id.as_str(), collection_id, name, parent_folder_id, now)
}

/// Looks a folder up by its local id.
pub fn get_by_id(store: &SyncStore, id: &str) -> (r: Result<Folder, SyncError>)
    requires
        store.wf(),
    ensures
        match r {
            Ok(c) => has_id(store@.folders, id@) && c@ == store@.folders[id_index(
                store@.folders,
                id@,
            )],
            Err(e) => e == SyncError::NotFound && !has_id(store@.folders, id@),
        },
{
    match find_by_id(&store.folders, id) {
        Some(i) => {
            proof {
                lemma_id_index_is(store@.folders, id@, i as int);
            }
            Ok(store.folders[i].clone())
        },
        None => Err(SyncError::NotFound),
    }
}

/// The display order of folders: by `sort_order`, ties broken by the
/// creation stamp's text order.
pub open spec fn row_le(a: FolderView, b: FolderView) -> bool {
    ||| a.sort_order < b.sort_order
    ||| (a.sort_order == b.sort_order && lex_le(a.created_at, b.created_at))
}

pub open spec fn sorted_rows(s: Seq<FolderView>) -> bool {
    forall|i: int, j: int| 0 <= i < j < s.len() ==> row_le(s[i], s[j])
}

proof fn lemma_row_le_total(a: FolderView, b: FolderView)
    ensures
        row_le(a, b) || row_le(b, a),
{
    lemma_lex_le_total(a.created_at, b.created_at);
}

proof fn lemma_row_le_trans(a: FolderView, b: FolderView, c: FolderView)
    requires
        row_le(a, b),
        row_le(b, c),
    ensures
        row_le(a, c),
{
    if a.sort_order == b.sort_order && b.sort_order == c.sort_order {
        lemma_lex_le_trans(a.created_at, b.created_at, c.created_at);
    }
}

fn row_le_exec(a: &Folder, b: &Folder) -> (r: bool)
    ensures
        r == row_le(a@, b@),
{
    if a.sort_order < b.sort_order {
        true
    } else if a.sort_order > b.sort_order {
        false
    } else {
        str_le(a.created_at.as_str(), b.created_at.as_str())
    }
}

/// The position at which a row joins a sorted list: past everything at
/// most equal to it.
fn insert_pos(out: &Vec<Folder>, x: &Folder) -> (p: usize)
    ensures
        p <= out@.len(),
        forall|k: int| 0 <= k < p ==> row_le(views(out@)[k], x@),
        p < out@.len() ==> !row_le(views(out@)[p as int], x@),
{
    let mut j: usize = 0;
    while j < out.len()
        invariant
            j <= out@.len(),
            forall|k: int| 0 <= k < j ==> row_le(views(out@)[k], x@),
        decreases out@.len() - j,
    {
        if !row_le_exec(&out[j], x) {
            return j;
        }
        j = j + 1;
    }
    j
}

/// Sorts rows into display order: the same rows, ordered by
/// `sort_order` with ties in creation-stamp order.
fn sort_rows(rows: Vec<Folder>) -> (r: Vec<Folder>)
    ensures
        views(r@).to_multiset() == views(rows@).to_multiset(),
        sorted_rows(views(r@)),
{
    let ghost s0 = views(rows@);
    let mut out: Vec<Folder> = Vec::new();
    let mut i: usize = 0;
    proof {
        assert(views(out@) =~= s0.take(0));
    }
    while i < rows.len()
        invariant
            i <= rows@.len(),
            s0 == views(rows@),
            rows@.len() == s0.len(),
            views(out@).to_multiset() == s0.take(i as int).to_multiset(),
            sorted_rows(views(out@)),
        decreases rows@.len() - i,
    {
        let x = rows[i].clone();
        let ghost xv = x@;
        let p = insert_pos(&out, &x);
        let ghost prev = out@;
        let ghost vout = views(prev);
        out.insert(p, x);
        proof {
            lemma_views_insert(prev, p as int, out@[p as int]);
            assert(views(out@) =~= vout.insert(p as int, xv));
            vstd::seq_lib::to_multiset_insert(vout, p as int, xv);
            assert(s0.take(i + 1 as int) =~= s0.take(i as int).push(s0[i as int]));
            vstd::seq_lib::to_multiset_build(s0.take(i as int), s0[i as int]);
            let n = views(out@);
            assert forall|a: int, b: int| 0 <= a < b < n.len() implies row_le(n[a], n[b]) by {
                if b < p {
                    assert(row_le(vout[a], vout[b]));
                } else if a > p {
                    assert(row_le(vout[a - 1], vout[b - 1]));
                } else if a < p && b == p {
                    assert(row_le(vout[a], xv));
                } else if a == p && b > p {
                    assert(!row_le(vout[p as int], xv));
                    lemma_row_le_total(vout[p as int], xv);
                    if b - 1 > p {
                        assert(row_le(vout[p as int], vout[b - 1]));
                        lemma_row_le_trans(xv, vout[p as int], vout[b - 1]);
                    }
                } else {
                    assert(a < p && b > p);
                    assert(row_le(vout[a], vout[b - 1]));
                }
            }
        }
        i = i + 1;
    }
    proof {
        assert(s0.take(s0.len() as int) =~= s0);
    }
    out
}

/// All folders, in display order: by `sort_order`, ties in
/// creation-stamp order; the result holds exactly the store's rows.
pub fn get_all(store: &SyncStore) -> (r: Vec<Folder>)
    ensures
        views(r@).to_multiset() == store@.folders.to_multiset(),
        sorted_rows(views(r@)),
{
    let ghost s0 = store@.folders;
    let mut out: Vec<Folder> = Vec::new();
    let mut i: usize = 0;
    proof {
        assert(views(out@) =~= s0.take(0));
    }
    while i < store.folders.len()
        invariant
            i <= store.folders@.len(),
            s0 == store@.folders,
            store.folders@.len() == s0.len(),
            views(out@) == s0.take(i as int),
        decreases store.folders@.len() - i,
    {
        let ghost vout = out@;
        out.push(store.folders[i].clone());
        proof {
            lemma_views_push(vout, out@[vout.len() as int]);
            assert(views(out@) =~= s0.take(i + 1 as int));
        }
        i = i + 1;
    }
    proof {
        assert(s0.take(s0.len() as int) =~= s0);
    }
    sort_rows(out)
}

/// A dirty folder awaits a push.
pub open spec fn dirty_pred() -> spec_fn(FolderView) -> bool {
    |f: FolderView| f.dirty
}

/// The folders that need pushing.
pub fn get_dirty(store: &SyncStore) -> (r: Vec<Folder>)
    ensures
        views(r@) == keep(store@.folders, dirty_pred()),
{
    let ghost s0 = store@.folders;
    let mut out: Vec<Folder> = Vec::new();
    let mut i: usize = 0;
    proof {
        assert(views(out@) =~= keep(s0.take(0), dirty_pred()));
    }
    while i < store.folders.len()
        invariant
            i <= store.folders@.len(),
            s0 == store@.folders,
            store.folders@.len() == s0.len(),
            views(out@) == keep(s0.take(i as int), dirty_pred()),
        decreases store.folders@.len() - i,
    {
        proof {
            assert(s0.take(i + 1 as int).drop_last() =~= s0.take(i as int));
            assert(s0.take(i + 1 as int).last() == s0[i as int]);
        }
        let f = &store.folders[i];
        if f.dirty {
            let ghost vout = out@;
            out.push(f.clone());
            proof {
                lemma_views_push(vout, out@[vout.len() as int]);
                assert(views(out@) =~= keep(s0.take(i + 1 as int), dirty_pred()));
            }
        }
        i = i + 1;
    }
    proof {
        assert(s0.take(s0.len() as int) =~= s0);
    }
    out
}

/// A row bound to its remote identity: anchored, stamped, clean.
pub open spec fn spec_bound(f: FolderView, cloud_id: Seq<char>, now: Seq<char>) -> FolderView {
    FolderView { cloud_id: Some(cloud_id), synced_at: Some(now), dirty: false, ..f }
}

/// Whether binding `id` to `cloud_id` would conflict: the row is
/// already mapped to a different remote id, or another row is already
/// mapped to this one.
pub open spec fn bind_conflict(s: Seq<FolderView>, i: int, cloud_id: Seq<char>) -> bool {
    ||| s[i].cloud_id is Some && s[i].cloud_id != Some(cloud_id)
    ||| exists|j: int| 0 <= j < s.len() && j != i && s[j].cloud_id == Some(cloud_id)
}

/// Binds a local folder to its remote identity after a successful push:
/// records `cloud_id`, stamps `synced_at = now` and clears `dirty`, all
/// in one step.  Binding the same pair again is harmless; binding
/// either id to a different counterpart is refused with
/// `ConflictingIdentity` and changes nothing.
pub fn mark_synced(store: &mut SyncStore, id: &str, cloud_id: &str, now: &str) -> (r: Result<
    (),
    SyncError,
>)
    requires
        old(store).wf(),
    ensures
        final(store).wf(),
        ({
            let s0 = old(store)@.folders;
            if !has_id(s0, id@) {
                r == Err::<(), SyncError>(SyncError::NotFound) && final(store)@ == old(store)@
            } else if bind_conflict(s0, id_index(s0, id@), cloud_id@) {
                r == Err::<(), SyncError>(SyncError::ConflictingIdentity) && final(store)@ == old(
                    store,
                )@
            } else {
                r == Ok::<(), SyncError>(()) && final(store)@ == (StoreView {
                    folders: s0.update(
                        id_index(s0, id@),
                        spec_bound(s0[id_index(s0, id@)], cloud_id@, now@),
                    ),
                    ..old(store)@
                })
            }
        }),
{
    let ghost s0 = store@.folders;
    let i = match find_by_id(&store.folders, id) {
        Some(i) => i,
        None => {
            return Err(SyncError::NotFound);
        },
    };
    proof {
        lemma_id_index_is(s0, id@, i as int);
    }
    match &store.folders[i].cloud_id {
        Some(existing) => {
            if !str_eq(existing.as_str(), cloud_id) {
                return Err(SyncError::ConflictingIdentity);
            }
        },
        None => {},
    }
    match find_by_cloud(&store.folders, cloud_id) {
        Some(k) => {
            if k != i {
                proof {
                    assert(bind_conflict(s0, i as int, cloud_id@));
                }
                return Err(SyncError::ConflictingIdentity);
            }
        },
        None => {},
    }
    proof {
        assert(!bind_conflict(s0, i as int, cloud_id@)) by {
            if s0[i as int].cloud_id is Some {
                assert(s0[i as int].cloud_id == Some(cloud_id@));
                if exists|j: int| 0 <= j < s0.len() && j != i && s0[j].cloud_id == Some(cloud_id@) {
                    let j = choose|j: int|
                        0 <= j < s0.len() && j != i && s0[j].cloud_id == Some(cloud_id@);
                    lemma_cloud_index_is(s0, cloud_id@, j);
                    lemma_cloud_index_is(s0, cloud_id@, i as int);
                }
            } else {
                if exists|j: int| 0 <= j < s0.len() && j != i && s0[j].cloud_id == Some(cloud_id@) {
                    assert(has_cloud(s0, cloud_id@));
                }
            }
        }
    }
    let prev = &store.folders[i];
    let row = Folder {
        id: prev.id.clone(),
        collection_id: prev.collection_id.clone(),
        parent_folder_id: clone_opt(&prev.parent_folder_id),
        name: prev.name.clone(),
        default_headers: prev.default_headers.clone(),
        default_auth: prev.default_auth.clone(),
        variables: prev.variables.clone(),
        sort_order: prev.sort_order,
        created_at: prev.created_at.clone(),
        cloud_id: Some(cloud_id.to_owned()),
        synced_at: Some(now.to_owned()),
        dirty: false,
    };
    let ghost vrow = row@;
    store.folders[i] = row;
    proof {
        assert(vrow =~= spec_bound(s0[i as int], cloud_id@, now@));
        lemma_views_update(old(store).folders@, i as int, store.folders@[i as int]);
        assert(store@.folders =~= s0.update(i as int, vrow));
        assert(vrow.cloud_id == s0[i as int].cloud_id || (forall|j: int|
            0 <= j < s0.len() && j != i ==> s0[j].cloud_id != vrow.cloud_id)) by {
            if s0[i as int].cloud_id is None {
                assert(!has_cloud(s0, cloud_id@));
                assert forall|j: int|
                    0 <= j < s0.len() && j != i implies s0[j].cloud_id != vrow.cloud_id by {
                    if s0[j].cloud_id == Some(cloud_id@) {
                        assert(has_cloud(s0, cloud_id@));
                    }
                }
            }
        }
        lemma_update_wf(s0, i as int, vrow);
        assert(store@ =~= (StoreView {
            folders: s0.update(i as int, spec_bound(s0[i as int], cloud_id@, now@)),
            ..old(store)@
        }));
    }
    Ok(())
}

/// A row flagged for a future push, but only if it is anchored.
pub open spec fn spec_marked(f: FolderView) -> FolderView {
    FolderView { dirty: if anchored(f) { true } else { f.dirty }, ..f }
}

/// Flags a folder as needing a push after a local mutation.  A folder
/// that was never synced (no `cloud_id`) is left untouched.  An unknown
/// id is a silent no-op.
pub fn mark_dirty(store: &mut SyncStore, id: &str)
    requires
        old(store).wf(),
    ensures
        final(store).wf(),
        ({
            let s0 = old(store)@.folders;
            if has_id(s0, id@) {
                final(store)@ == (StoreView {
                    folders: s0.update(id_index(s0, id@), spec_marked(s0[id_index(s0, id@)])),
                    ..old(store)@
                })
            } else {
                final(store)@ == old(store)@
            }
        }),
{
    let ghost s0 = store@.folders;
    let i = match find_by_id(&store.folders, id) {
        Some(i) => i,
        None => {
            return ;
        },
    };
    proof {
        lemma_id_index_is(s0, id@, i as int);
    }
    let anchored_row = store.folders[i].cloud_id.is_some();
    if anchored_row {
        store.folders[i].dirty = true;
    }
    proof {
        lemma_views_update(old(store).folders@, i as int, store.folders@[i as int]);
        assert(store@.folders =~= s0.update(i as int, spec_marked(s0[i as int])));
        lemma_update_wf(s0, i as int, spec_marked(s0[i as int]));
        assert(store@ =~= (StoreView {
            folders: s0.update(i as int, spec_marked(s0[i as int])),
            ..old(store)@
        }));
    }
}

/// A row after a partial update: each `Some` field of the update is
/// written, and the row is flagged dirty exactly when it carries a
/// remote anchor.
pub open spec fn spec_updated(f: FolderView, u: UpdateFolder, now: Seq<char>) -> FolderView {
    FolderView {
        name: match u.name {
            Some(x) => x@,
            None => f.name,
        },
        default_headers: match u.default_headers {
            Some(x) => x@,
            None => f.default_headers,
        },
        default_auth: match u.default_auth {
            Some(x) => x@,
            None => f.default_auth,
        },
        variables: match u.variables {
            Some(x) => x@,
            None => f.variables,
        },
        dirty: if anchored(f) {
            true
        } else {
            f.dirty
        },
        ..f
    }
}

/// Applies a partial update to a folder.  A no-op update (every field
/// `None`) changes nothing; otherwise the `Some` fields are written and
/// the row is dirtied exactly when it has been synced before.  An
/// unknown id is a silent no-op.
pub fn update(store: &mut SyncStore, id: &str, data: &UpdateFolder, now: &str)
    requires
        old(store).wf(),
    ensures
        final(store).wf(),
        ({
            let s0 = old(store)@.folders;
            if has_id(s0, id@) && !data.spec_is_noop() {
                final(store)@ == (StoreView {
                    folders: s0.update(
                        id_index(s0, id@),
                        spec_updated(s0[id_index(s0, id@)], *data, now@),
                    ),
                    ..old(store)@
                })
            } else {
                final(store)@ == old(store)@
            }
        }),
{
    if data.is_noop() {
        return ;
    }
    let ghost s0 = store@.folders;
    let i = match find_by_id(&store.folders, id) {
        Some(i) => i,
        None => {
            return ;
        },
    };
    proof {
        lemma_id_index_is(s0, id@, i as int);
    }
    let prev = &store.folders[i];
    let row = Folder {
        id: prev.id.clone(),
        collection_id: prev.collection_id.clone(),
        parent_folder_id: clone_opt(&prev.parent_folder_id),
        name: match &data.name {
            Some(x) => x.clone(),
            None => prev.name.clone(),
        },
        default_headers: match &data.default_headers {
            Some(x) => x.clone(),
            None => prev.default_headers.clone(),
        },
        default_auth: match &data.default_auth {
            Some(x) => x.clone(),
            None => prev.default_auth.clone(),
        },
        variables: match &data.variables {
            Some(x) => x.clone(),
            None => prev.variables.clone(),
        },
        sort_order: prev.sort_order,
        created_at: prev.created_at.clone(),
        cloud_id: clone_opt(&prev.cloud_id),
        synced_at: clone_opt(&prev.synced_at),
        dirty: if prev.cloud_id.is_some() {
            true
        } else {
            prev.dirty
        },
    };
    let ghost vrow = row@;
    store.folders[i] = row;
    proof {
        assert(vrow =~= spec_updated(s0[i as int], *data, now@));
        lemma_views_update(old(store).folders@, i as int, store.folders@[i as int]);
        assert(store@.folders =~= s0.update(i as int, vrow));
        lemma_update_wf(s0, i as int, vrow);
        assert(store@ =~= (StoreView { folders: s0.update(i as int, vrow), ..old(store)@ }));
    }
}

/// One step of the schema's folder cascade: the ids already marked for
/// removal, plus every folder whose parent is marked.
pub open spec fn expand_removed(s: Seq<FolderView>, ids: Set<Seq<char>>) -> Set<Seq<char>> {
    Set::new(
        |x: Seq<char>|
            ids.contains(x) || exists|k: int|
                0 <= k < s.len() && (#[trigger] s[k]).id == x && (s[k].parent_folder_id
                    matches Some(p) && ids.contains(p)),
    )
}

/// `expand_removed`, seen after only the first `j` folders: what the
/// marking loop has gathered so far within one round.
spec fn partial_expand(s: Seq<FolderView>, ids: Set<Seq<char>>, j: int) -> Set<Seq<char>> {
    Set::new(
        |x: Seq<char>|
            ids.contains(x) || exists|k: int|
                0 <= k < j && (#[trigger] s[k]).id == x && (s[k].parent_folder_id matches Some(p)
                    && ids.contains(p)),
    )
}

/// The cascade closed `n` times from the root id.
pub open spec fn cascade_ids(s: Seq<FolderView>, root: Seq<char>, n: nat) -> Set<Seq<char>>
    decreases n,
{
    if n == 0 {
        Set::empty().insert(root)
    } else {
        expand_removed(s, cascade_ids(s, root, (n - 1) as nat))
    }
}

/// Every folder id the schema's cascade deletes together with the root:
/// the one-step closure iterated once per folder row, which saturates,
/// since each useful step marks at least one further folder.
pub open spec fn removed_ids(s: Seq<FolderView>, root: Seq<char>) -> Set<Seq<char>> {
    cascade_ids(s, root, s.len() as nat)
}

/// The folders that survive the cascade.
pub open spec fn survives_pred(ids: Set<Seq<char>>) -> spec_fn(FolderView) -> bool {
    |f: FolderView| !ids.contains(f.id)
}

/// Deletes a folder by its local id, cascading as the durable schema
/// does: every folder reachable from it through parent links goes with
/// it, and a request pointing into the deleted set keeps its row but
/// loses its folder reference.  An unknown id is a silent no-op.  This
/// is the plain local delete: the guarded path for synced rows is the
/// orchestrator's to enforce.
pub fn delete(store: &mut SyncStore, id: &str)
    requires
        old(store).wf(),
    ensures
        final(store).wf(),
        ({
            let s0 = old(store)@.folders;
            if has_id(s0, id@) {
                final(store)@ == (StoreView {
                    folders: keep(s0, survives_pred(removed_ids(s0, id@))),
                    requests: crate::requests::detach_all(
                        old(store)@.requests,
                        removed_ids(s0, id@),
                    ),
                    ..old(store)@
                })
            } else {
                final(store)@ == old(store)@
            }
        }),
{
    let ghost s0 = store@.folders;
    if find_by_id(&store.folders, id).is_none() {
        return ;
    }
    let mut removed: Vec<String> = Vec::new();
    removed.push(id.to_owned());
    proof {
        assert(removed@ =~= Seq::<String>::empty().push(removed@[0]));
        lemma_id_set_push(Seq::<String>::empty(), removed@[0]);
        assert(id_set(Seq::<String>::empty()) =~= Set::<Seq<char>>::empty());
        assert(id_set(removed@) =~= cascade_ids(s0, id@, 0));
    }
    let rounds = store.folders.len();
    let mut round: usize = 0;
    while round < rounds
        invariant
            round <= rounds,
            rounds == store.folders@.len(),
            s0 == store@.folders,
            store.folders@.len() == s0.len(),
            id_set(removed@) == cascade_ids(s0, id@, round as nat),
        decreases rounds - round,
    {
        let frozen = removed.len();
        let ghost base = removed@;
        let ghost cur = id_set(removed@);
        let mut j: usize = 0;
        proof {
            assert(base.take(frozen as int) =~= base);
            assert(id_set(removed@) =~= partial_expand(s0, cur, 0));
        }
        while j < store.folders.len()
            invariant
                j <= store.folders@.len(),
                s0 == store@.folders,
                store.folders@.len() == s0.len(),
                frozen <= removed@.len(),
                removed@.take(frozen as int) == base,
                id_set(base) == cur,
                id_set(removed@) == partial_expand(s0, cur, j as int),
            decreases store.folders@.len() - j,
        {
            let f = &store.folders[j];
            let marked_parent = match &f.parent_folder_id {
                Some(p) => contains_id_upto(&removed, frozen, p.as_str()),
                None => false,
            };
            let ghost before = removed@;
            if marked_parent {
                removed.push(f.id.clone());
                proof {
                    lemma_id_set_push(before, removed@.last());
                    assert(removed@.take(frozen as int) =~= base);
                }
            }
            proof {
                assert forall|y: Seq<char>|
                    id_set(removed@).contains(y) implies partial_expand(
                    s0,
                    cur,
                    j as int + 1,
                ).contains(y) by {
                    if marked_parent && y == s0[j as int].id {
                        assert(s0[j as int].id == y && (s0[j as int].parent_folder_id matches Some(
                            p,
                        ) && cur.contains(p)));
                    } else {
                        assert(partial_expand(s0, cur, j as int).contains(y));
                    }
                }
                assert forall|y: Seq<char>|
                    partial_expand(s0, cur, j as int + 1).contains(y) implies id_set(
                    removed@,
                ).contains(y) by {
                    if !partial_expand(s0, cur, j as int).contains(y) {
                        assert(y == s0[j as int].id);
                        assert(marked_parent);
                    }
                }
                assert(id_set(removed@) =~= partial_expand(s0, cur, j as int + 1));
            }
            j = j + 1;
        }
        proof {
            assert(partial_expand(s0, cur, s0.len() as int) =~= expand_removed(s0, cur));
            assert(id_set(removed@) =~= cascade_ids(s0, id@, round as nat + 1));
        }
        round = round + 1;
    }
    let ghost rset = removed_ids(s0, id@);
    proof {
        assert(id_set(removed@) == rset);
    }
    let ghost fpred = survives_pred(rset);
    let mut kept: Vec<Folder> = Vec::new();
    let mut fi: usize = 0;
    proof {
        assert(views(kept@) =~= keep(s0.take(0), fpred));
    }
    while fi < store.folders.len()
        invariant
            fi <= store.folders@.len(),
            s0 == store@.folders,
            store.folders@.len() == s0.len(),
            views(kept@) == keep(s0.take(fi as int), fpred),
            id_set(removed@) == rset,
            fpred == survives_pred(rset),
        decreases store.folders@.len() - fi,
    {
        proof {
            assert(s0.take(fi + 1 as int).drop_last() =~= s0.take(fi as int));
            assert(s0.take(fi + 1 as int).last() == s0[fi as int]);
        }
        let f = &store.folders[fi];
        if !contains_id(&removed, f.id.as_str()) {
            let ghost vout = kept@;
            kept.push(f.clone());
            proof {
                lemma_views_push(vout, kept@[vout.len() as int]);
                assert(views(kept@) =~= keep(s0.take(fi + 1 as int), fpred));
            }
        }
        fi = fi + 1;
    }
    proof {
        assert(s0.take(s0.len() as int) =~= s0);
    }
    store.folders = kept;
    proof {
        let rel_id = |a: FolderView, b: FolderView| a.id != b.id;
        let rel_cloud = |a: FolderView, b: FolderView| a.cloud_id is Some ==> a.cloud_id
            != b.cloud_id;
        lemma_keep_pairwise(s0, fpred, rel_id);
        lemma_keep_pairwise(s0, fpred, rel_cloud);
        lemma_keep_membership(s0, fpred);
        assert forall|a: int, b: int|
            0 <= a < b < store@.folders.len() implies store@.folders[a].id
            != store@.folders[b].id by {
            assert(rel_id(keep(s0, fpred)[a], keep(s0, fpred)[b]));
        }
        assert forall|a: int, b: int|
            0 <= a < b < store@.folders.len() && store@.folders[a].cloud_id is Some implies store@
                .folders[a].cloud_id != store@.folders[b].cloud_id by {
            assert(rel_cloud(keep(s0, fpred)[a], keep(s0, fpred)[b]));
        }
        assert forall|k: int|
            0 <= k < store@.folders.len() && store@.folders[k].dirty implies anchored(
            store@.folders[k],
        ) by {
            let j = choose|j: int| 0 <= j < s0.len() && keep(s0, fpred)[k] == s0[j];
            assert(s0[j].dirty ==> anchored(s0[j]));
        }
    }
    let ghost r0 = store@.requests;
    let mut detached: Vec<SavedRequest> = Vec::new();
    let mut ri: usize = 0;
    proof {
        assert(views(detached@) =~= crate::requests::detach_all(r0.take(0), rset));
    }
    while ri < store.requests.len()
        invariant
            ri <= store.requests@.len(),
            r0 == store@.requests,
            store.requests@.len() == r0.len(),
            views(detached@) == crate::requests::detach_all(r0.take(ri as int), rset),
            id_set(removed@) == rset,
        decreases store.requests@.len() - ri,
    {
        let rq = &store.requests[ri];
        let cut = match &rq.folder_id {
            Some(p) => contains_id(&removed, p.as_str()),
            None => false,
        };
        let row = SavedRequest {
            id: rq.id.clone(),
            collection_id: rq.collection_id.clone(),
            folder_id: if cut {
                None
            } else {
                clone_opt(&rq.folder_id)
            },
            name: rq.name.clone(),
            method: rq.method.clone(),
            url: rq.url.clone(),
            headers: rq.headers.clone(),
            params: rq.params.clone(),
            body: rq.body.clone(),
            auth: rq.auth.clone(),
            variables: rq.variables.clone(),
            sort_order: rq.sort_order,
            updated_at: rq.updated_at.clone(),
            created_at: rq.created_at.clone(),
            cloud_id: clone_opt(&rq.cloud_id),
            synced_at: clone_opt(&rq.synced_at),
            dirty: rq.dirty,
        };
        let ghost vout = detached@;
        let ghost vrow = row@;
        detached.push(row);
        proof {
            assert(vrow =~= crate::requests::spec_detached(r0[ri as int], rset));
            lemma_views_push(vout, detached@[vout.len() as int]);
            assert(r0.take(ri + 1 as int).drop_last() =~= r0.take(ri as int));
            assert(views(detached@) =~= crate::requests::detach_all(r0.take(ri + 1 as int), rset));
        }
        ri = ri + 1;
    }
    proof {
        assert(r0.take(r0.len() as int) =~= r0);
    }
    store.requests = detached;
    proof {
        let dall = crate::requests::detach_all(r0, rset);
        assert forall|k: int| 0 <= k < dall.len() implies (#[trigger] dall[k]).id == r0[k].id
            && dall[k].cloud_id == r0[k].cloud_id && dall[k].dirty == r0[k].dirty by {
            assert(dall[k] == crate::requests::spec_detached(r0[k], rset));
        }
        assert(crate::requests::unique_ids(store@.requests));
        assert(crate::requests::unique_cloud_ids(store@.requests));
        assert(crate::requests::dirty_anchored(store@.requests));
        assert(store@ =~= (StoreView {
            folders: keep(s0, survives_pred(removed_ids(s0, id@))),
            requests: crate::requests::detach_all(old(store)@.requests, removed_ids(s0, id@)),
            ..old(store)@
        }));
    }
}

} // verus!
