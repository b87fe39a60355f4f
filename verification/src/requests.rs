use vstd::prelude::*;
use crate::error::SyncError;
use crate::ids::new_local_id;
use crate::store::keep;
use crate::store::lemma_remove_pairwise;
use crate::store::lemma_views_insert;
use crate::store::lemma_views_push;
use crate::store::lemma_views_remove;
use crate::store::lemma_views_update;
use crate::store::views;
use crate::store::StoreView;
use crate::store::SyncStore;
use crate::strutil::clone_opt;
use crate::strutil::opt_is;
use crate::strutil::opt_ref_view;
use crate::strutil::opt_view;
use crate::strutil::own_opt;
use crate::strutil::lemma_lex_le_total;
use crate::strutil::lemma_lex_le_trans;
use crate::strutil::lex_le;
use crate::strutil::str_eq;
use crate::strutil::str_le;

verus! {

/// A saved request.  Like a folder, it carries its own sync anchor in
/// `cloud_id` and is pushed or pulled individually.
#[derive(Debug)]
pub struct SavedRequest {
    pub id: String,
    pub collection_id: String,
    pub folder_id: Option<String>,
    pub name: String,
    pub method: String,
    pub url: String,
    pub headers: String,
    pub params: String,
    pub body: String,
    pub auth: String,
    pub variables: String,
    pub sort_order: i32,
    pub updated_at: String,
    pub created_at: String,
    pub cloud_id: Option<String>,
    pub synced_at: Option<String>,
    pub dirty: bool,
}

#[verifier::ext_equal]
pub ghost struct RequestView {
    pub id: Seq<char>,
    pub collection_id: Seq<char>,
    pub folder_id: Option<Seq<char>>,
    pub name: Seq<char>,
    pub method: Seq<char>,
    pub url: Seq<char>,
    pub headers: Seq<char>,
    pub params: Seq<char>,
    pub body: Seq<char>,
    pub auth: Seq<char>,
    pub variables: Seq<char>,
    pub sort_order: i32,
    pub updated_at: Seq<char>,
    pub created_at: Seq<char>,
    pub cloud_id: Option<Seq<char>>,
    pub synced_at: Option<Seq<char>>,
    pub dirty: bool,
}

impl View for SavedRequest {
    type V = RequestView;

    open spec fn view(&self) -> RequestView {
        RequestView {
            id: self.id@,
            collection_id: self.collection_id@,
            folder_id: opt_view(self.folder_id),
            name: self.name@,
            method: self.method@,
            url: self.url@,
            headers: self.headers@,
            params: self.params@,
            body: self.body@,
            auth: self.auth@,
            variables: self.variables@,
            sort_order: self.sort_order,
            updated_at: self.updated_at@,
            created_at: self.created_at@,
            cloud_id: opt_view(self.cloud_id),
            synced_at: opt_view(self.synced_at),
            dirty: self.dirty,
        }
    }
}

impl Clone for SavedRequest {
    fn clone(&self) -> (res: Self)
        ensures
            res@ == self@,
    {
        SavedRequest {
            id: self.id.clone(),
            collection_id: self.collection_id.clone(),
            folder_id: clone_opt(&self.folder_id),
            name: self.name.clone(),
            method: self.method.clone(),
            url: self.url.clone(),
            headers: self.headers.clone(),
            params: self.params.clone(),
            body: self.body.clone(),
            auth: self.auth.clone(),
            variables: self.variables.clone(),
            sort_order: self.sort_order,
            updated_at: self.updated_at.clone(),
            created_at: self.created_at.clone(),
            cloud_id: clone_opt(&self.cloud_id),
            synced_at: clone_opt(&self.synced_at),
            dirty: self.dirty,
        }
    }
}

/// The sync anchor of a saved request: its own remote identity.
pub open spec fn anchored(r: RequestView) -> bool {
    r.cloud_id is Some
}

/// The requests that survive deleting a whole collection.
pub open spec fn other_collection_pred(collection_id: Seq<char>) -> spec_fn(RequestView) -> bool {
    |r: RequestView| r.collection_id != collection_id
}

/// A request after the folder it pointed at was deleted: it stays, but
/// the reference is detached.
pub open spec fn spec_detached(r: RequestView, folder_ids: Set<Seq<char>>) -> RequestView {
    if r.folder_id matches Some(p) && folder_ids.contains(p) {
        RequestView { folder_id: None, ..r }
    } else {
        r
    }
}

/// Every request, with references into the deleted folders detached.
pub open spec fn detach_all(s: Seq<RequestView>, folder_ids: Set<Seq<char>>) -> Seq<RequestView> {
    s.map_values(|r: RequestView| spec_detached(r, folder_ids))
}

pub open spec fn unique_ids(s: Seq<RequestView>) -> bool {
    forall|i: int, j: int| 0 <= i < j < s.len() ==> s[i].id != s[j].id
}

/// At most one local row maps to a given remote id.
pub open spec fn unique_cloud_ids(s: Seq<RequestView>) -> bool {
    forall|i: int, j: int|
        0 <= i < j < s.len() && s[i].cloud_id is Some ==> s[i].cloud_id != s[j].cloud_id
}

/// A row without a sync anchor is never dirty.
pub open spec fn dirty_anchored(s: Seq<RequestView>) -> bool {
    forall|i: int| 0 <= i < s.len() ==> (s[i].dirty ==> anchored(s[i]))
}

pub open spec fn has_id(s: Seq<RequestView>, id: Seq<char>) -> bool {
    exists|i: int| 0 <= i < s.len() && s[i].id == id
}

pub open spec fn id_index(s: Seq<RequestView>, id: Seq<char>) -> int {
    choose|i: int| 0 <= i < s.len() && s[i].id == id
}

pub open spec fn has_cloud(s: Seq<RequestView>, cloud: Seq<char>) -> bool {
    exists|i: int| 0 <= i < s.len() && s[i].cloud_id == Some(cloud)
}

pub open spec fn cloud_index(s: Seq<RequestView>, cloud: Seq<char>) -> int {
    choose|i: int| 0 <= i < s.len() && s[i].cloud_id == Some(cloud)
}

/// The fields required to create a request locally.
#[derive(Debug)]
pub struct CreateRequest {
    pub collection_id: String,
    pub folder_id: Option<String>,
    pub name: String,
    pub method: String,
    pub url: String,
    pub headers: String,
    pub params: String,
    pub body: String,
    pub auth: String,
}

/// A partial update: a field is overwritten exactly when it is `Some`.
#[derive(Debug)]
pub struct UpdateRequest {
    pub name: Option<String>,
    pub method: Option<String>,
    pub url: Option<String>,
    pub headers: Option<String>,
    pub params: Option<String>,
    pub body: Option<String>,
    pub auth: Option<String>,
    pub variables: Option<String>,
}

impl UpdateRequest {
    /// Whether the update writes nothing: every field is `None`.
    pub open spec fn spec_is_noop(self) -> bool {
        &&& self.name is None
        &&& self.method is None
        &&& self.url is None
        &&& self.headers is None
        &&& self.params is None
        &&& self.body is None
        &&& self.auth is None
        &&& self.variables is None
    }

    pub fn is_noop(&self) -> (r: bool)
        ensures
            r == self.spec_is_noop(),
    {
        self.name.is_none() && self.method.is_none() && self.url.is_none()
            && self.headers.is_none() && self.params.is_none() && self.body.is_none()
            && self.auth.is_none() && self.variables.is_none()
    }
}

/// With unique remote ids, any row carrying `Some(cloud)` is the row
/// `cloud_index` names.
pub proof fn lemma_cloud_index_is(s: Seq<RequestView>, cloud: Seq<char>, i: int)
    requires
        unique_cloud_ids(s),
        0 <= i < s.len(),
        s[i].cloud_id == Some(cloud),
    ensures
        has_cloud(s, cloud),
        cloud_index(s, cloud) == i,
{
    assert(has_cloud(s, cloud));
    let k = cloud_index(s, cloud);
    if k < i {
        assert(s[k].cloud_id != s[i].cloud_id);
    } else if i < k {
        assert(s[i].cloud_id != s[k].cloud_id);
    }
}

/// With unique local ids, any row carrying `id` is the row `id_index`
/// names.
pub proof fn lemma_id_index_is(s: Seq<RequestView>, id: Seq<char>, i: int)
    requires
        unique_ids(s),
        0 <= i < s.len(),
        s[i].id == id,
    ensures
        has_id(s, id),
        id_index(s, id) == i,
{
    assert(has_id(s, id));
    let k = id_index(s, id);
    if k < i {
        assert(s[k].id != s[i].id);
    } else if i < k {
        assert(s[i].id != s[k].id);
    }
}

/// Replacing row `i` by one with the same local id, a permissible
/// remote id and a gated dirty flag keeps the store invariants.
pub proof fn lemma_update_wf(s: Seq<RequestView>, i: int, c: RequestView)
    requires
        unique_ids(s),
        unique_cloud_ids(s),
        dirty_anchored(s),
        0 <= i < s.len(),
        c.id == s[i].id,
        c.dirty ==> anchored(c),
        c.cloud_id is Some ==> c.cloud_id == s[i].cloud_id || (forall|j: int|
            0 <= j < s.len() && j != i ==> s[j].cloud_id != c.cloud_id),
    ensures
        unique_ids(s.update(i, c)),
        unique_cloud_ids(s.update(i, c)),
        dirty_anchored(s.update(i, c)),
{
    let t = s.update(i, c);
    assert forall|a: int, b: int|
        0 <= a < b < t.len() && t[a].cloud_id is Some implies t[a].cloud_id != t[b].cloud_id by {
        if a != i && b != i {
            assert(s[a].cloud_id != s[b].cloud_id);
        } else if a == i {
            if c.cloud_id == s[i].cloud_id {
                assert(s[a].cloud_id != s[b].cloud_id);
            }
        } else {
            if s[a].cloud_id == c.cloud_id {
                if c.cloud_id == s[i].cloud_id {
                    assert(s[a].cloud_id != s[i].cloud_id);
                } else {
                    assert(s[a].cloud_id != c.cloud_id);
                }
            }
        }
    }
}

/// Appending a row with a fresh local id, an absent remote id and a
/// gated dirty flag keeps the store invariants.
pub proof fn lemma_push_wf(s: Seq<RequestView>, c: RequestView)
    requires
        unique_ids(s),
        unique_cloud_ids(s),
        dirty_anchored(s),
        !has_id(s, c.id),
        c.cloud_id matches Some(cl) ==> !has_cloud(s, cl),
        c.dirty ==> anchored(c),
    ensures
        unique_ids(s.push(c)),
        unique_cloud_ids(s.push(c)),
        dirty_anchored(s.push(c)),
{
    let t = s.push(c);
    assert forall|a: int, b: int| 0 <= a < b < t.len() implies t[a].id != t[b].id by {
        if b == s.len() {
            assert(!(s[a].id == c.id));
        }
    }
    assert forall|a: int, b: int|
        0 <= a < b < t.len() && t[a].cloud_id is Some implies t[a].cloud_id != t[b].cloud_id by {
        if b == s.len() {
            if c.cloud_id is Some {
                let cl = c.cloud_id->0;
                assert(!(s[a].cloud_id == Some(cl)));
            }
        }
    }
}

/// The first row holding `cloud_id` as its remote id, if any.
fn find_by_cloud(v: &Vec<SavedRequest>, cloud_id: &str) -> (r: Option<usize>)
    ensures
        match r {
            Some(i) => i < v@.len() && views(v@)[i as int].cloud_id == Some(cloud_id@),
            None => !has_cloud(views(v@), cloud_id@),
        },
{
    let mut i: usize = 0;
    while i < v.len()
        invariant
            i <= v@.len(),
            forall|j: int| 0 <= j < i ==> views(v@)[j].cloud_id != Some(cloud_id@),
        decreases v@.len() - i,
    {
        if opt_is(&v[i].cloud_id, cloud_id) {
            return Some(i);
        }
        i = i + 1;
    }
    None
}

/// The first row with the given local id, if any.
fn find_by_id(v: &Vec<SavedRequest>, id: &str) -> (r: Option<usize>)
    ensures
        match r {
            Some(i) => i < v@.len() && views(v@)[i as int].id == id@,
            None => !has_id(views(v@), id@),
        },
{
    let mut i: usize = 0;
    while i < v.len()
        invariant
            i <= v@.len(),
            forall|j: int| 0 <= j < i ==> views(v@)[j].id != id@,
        decreases v@.len() - i,
    {
        if str_eq(v[i].id.as_str(), id) {
            return Some(i);
        }
        i = i + 1;
    }
    None
}

/// An existing row overwritten by an inbound cloud record: content and
/// parent references are taken from the payload, the sync stamp is
/// refreshed and the dirty flag cleared; local identity and creation
/// data stay.
pub open spec fn merged_from_cloud(
    r: RequestView,
    collection_id: Seq<char>,
    folder_id: Option<Seq<char>>,
    name: Seq<char>,
    method: Seq<char>,
    url: Seq<char>,
    headers: Seq<char>,
    params: Seq<char>,
    body: Seq<char>,
    auth: Seq<char>,
    variables: Seq<char>,
    sort_order: i32,
    now: Seq<char>,
) -> RequestView {
    RequestView {
        collection_id: collection_id,
        folder_id: folder_id,
        name: name,
        method: method,
        url: url,
        headers: headers,
        params: params,
        body: body,
        auth: auth,
        variables: variables,
        sort_order: sort_order,
        synced_at: Some(now),
        dirty: false,
        ..r
    }
}

/// A new local row cached from an inbound cloud record.
pub open spec fn fresh_from_cloud(
    local_id: Seq<char>,
    cloud_id: Seq<char>,
    collection_id: Seq<char>,
    folder_id: Option<Seq<char>>,
    name: Seq<char>,
    method: Seq<char>,
    url: Seq<char>,
    headers: Seq<char>,
    params: Seq<char>,
    body: Seq<char>,
    auth: Seq<char>,
    variables: Seq<char>,
    sort_order: i32,
    now: Seq<char>,
) -> RequestView {
    RequestView {
        id: local_id,
        collection_id: collection_id,
        folder_id: folder_id,
        name: name,
        method: method,
        url: url,
        headers: headers,
        params: params,
        body: body,
        auth: auth,
        variables: variables,
        sort_order: sort_order,
        updated_at: now,
        created_at: now,
        cloud_id: Some(cloud_id),
        synced_at: Some(now),
        dirty: false,
    }
}

/// The reconciling upsert: update the row already mapped to `cloud_id`,
/// else insert a new row under `local_id`.
pub open spec fn spec_upsert(
    s: Seq<RequestView>,
    local_id: Seq<char>,
    cloud_id: Seq<char>,
    collection_id: Seq<char>,
    folder_id: Option<Seq<char>>,
    name: Seq<char>,
    method: Seq<char>,
    url: Seq<char>,
    headers: Seq<char>,
    params: Seq<char>,
    body: Seq<char>,
    auth: Seq<char>,
    variables: Seq<char>,
    sort_order: i32,
    now: Seq<char>,
) -> Seq<RequestView> {
    if has_cloud(s, cloud_id) {
        s.update(
            cloud_index(s, cloud_id),
            merged_from_cloud(
                s[cloud_index(s, cloud_id)],
                collection_id,
                folder_id,
                name,
                method,
                url,
                headers,
                params,
                body,
                auth,
                variables,
                sort_order,
                now,
            ),
        )
    } else {
        s.push(
            fresh_from_cloud(
                local_id,
                cloud_id,
                collection_id,
                folder_id,
                name,
                method,
                url,
                headers,
                params,
                body,
                auth,
                variables,
                sort_order,
                now,
            ),
        )
    }
}

/// The row an upsert returns.
pub open spec fn spec_upsert_row(
    s: Seq<RequestView>,
    local_id: Seq<char>,
    cloud_id: Seq<char>,
    collection_id: Seq<char>,
    folder_id: Option<Seq<char>>,
    name: Seq<char>,
    method: Seq<char>,
    url: Seq<char>,
    headers: Seq<char>,
    params: Seq<char>,
    body: Seq<char>,
    auth: Seq<char>,
    variables: Seq<char>,
    sort_order: i32,
    now: Seq<char>,
) -> RequestView {
    if has_cloud(s, cloud_id) {
        merged_from_cloud(
            s[cloud_index(s, cloud_id)],
            collection_id,
            folder_id,
            name,
            method,
            url,
            headers,
            params,
            body,
            auth,
            variables,
            sort_order,
            now,
        )
    } else {
        fresh_from_cloud(
            local_id,
            cloud_id,
            collection_id,
            folder_id,
            name,
            method,
            url,
            headers,
            params,
            body,
            auth,
            variables,
            sort_order,
            now,
        )
    }
}

/// Merges an inbound cloud record under a caller-chosen local id; see
/// `upsert_from_cloud`.  The parent references arrive already resolved
/// to local ids: the orchestrator resolves them before calling down.
pub fn upsert_from_cloud_with_id(
    store: &mut SyncStore,
    local_id: &str,
    cloud_id: &str,
    collection_id: &str,
    folder_id: Option<&str>,
    name: &str,
    method: &str,
    url: &str,
    headers: &str,
    params: &str,
    body: &str,
    auth: &str,
    variables: &str,
    sort_order: i32,
    now: &str,
) -> (r: Result<SavedRequest, SyncError>)
    requires
        old(store).wf(),
    ensures
        final(store).wf(),
        r is Ok <==> has_cloud(old(store)@.requests, cloud_id@) || !has_id(
            old(store)@.requests,
            local_id@,
        ),
        r matches Ok(c) ==> {
            &&& c@ == spec_upsert_row(
                old(store)@.requests,
                local_id@,
                cloud_id@,
                collection_id@,
                opt_ref_view(folder_id),
                name@,
                method@,
                url@,
                headers@,
                params@,
                body@,
                auth@,
                variables@,
                sort_order,
                now@,
            )
            &&& final(store)@ == (StoreView {
                requests: spec_upsert(
                    old(store)@.requests,
                    local_id@,
                    cloud_id@,
                    collection_id@,
                    opt_ref_view(folder_id),
                    name@,
                    method@,
                    url@,
                    headers@,
                    params@,
                    body@,
                    auth@,
                    variables@,
                    sort_order,
                    now@,
                ),
                ..old(store)@
            })
        },
        r is Err ==> r == Err::<SavedRequest, SyncError>(SyncError::StoreUnavailable)
            && final(store)@ == old(store)@,
{
    let ghost s0 = store@.requests;
    match find_by_cloud(&store.requests, cloud_id) {
        Some(i) => {
            proof {
                lemma_cloud_index_is(s0, cloud_id@, i as int);
            }
            let prev = &store.requests[i];
            let row = SavedRequest {
                id: prev.id.clone(),
                collection_id: collection_id.to_owned(),
                folder_id: own_opt(&folder_id),
                name: name.to_owned(),
                method: method.to_owned(),
                url: url.to_owned(),
                headers: headers.to_owned(),
                params: params.to_owned(),
                body: body.to_owned(),
                auth: auth.to_owned(),
                variables: variables.to_owned(),
                sort_order: sort_order,
                updated_at: prev.updated_at.clone(),
                created_at: prev.created_at.clone(),
                cloud_id: clone_opt(&prev.cloud_id),
                synced_at: Some(now.to_owned()),
                dirty: false,
            };
            let result = row.clone();
            let ghost vrow = row@;
            store.requests[i] = row;
            proof {
                assert(vrow =~= merged_from_cloud(
                    s0[i as int],
                    collection_id@,
                    opt_ref_view(folder_id),
                    name@,
                    method@,
                    url@,
                    headers@,
                    params@,
                    body@,
                    auth@,
                    variables@,
                    sort_order,
                    now@,
                ));
                lemma_views_update(old(store).requests@, i as int, store.requests@[i as int]);
                assert(store@.requests =~= s0.update(i as int, vrow));
                lemma_update_wf(s0, i as int, vrow);
                assert(store@ =~= (StoreView {
                    requests: spec_upsert(
                        s0,
                        local_id@,
                        cloud_id@,
                        collection_id@,
                        opt_ref_view(folder_id),
                        name@,
                        method@,
                        url@,
                        headers@,
                        params@,
                        body@,
                        auth@,
                        variables@,
                        sort_order,
                        now@,
                    ),
                    ..old(store)@
                }));
            }
            Ok(result)
        },
        None => {
            if find_by_id(&store.requests, local_id).is_some() {
                return Err(SyncError::StoreUnavailable);
            }
            let row = SavedRequest {
                id: local_id.to_owned(),
                collection_id: collection_id.to_owned(),
                folder_id: own_opt(&folder_id),
                name: name.to_owned(),
                method: method.to_owned(),
                url: url.to_owned(),
                headers: headers.to_owned(),
                params: params.to_owned(),
                body: body.to_owned(),
                auth: auth.to_owned(),
                variables: variables.to_owned(),
                sort_order: sort_order,
                updated_at: now.to_owned(),
                created_at: now.to_owned(),
                cloud_id: Some(cloud_id.to_owned()),
                synced_at: Some(now.to_owned()),
                dirty: false,
            };
            let result = row.clone();
            let ghost vrow = row@;
            store.requests.push(row);
            proof {
                assert(vrow =~= fresh_from_cloud(
                    local_id@,
                    cloud_id@,
                    collection_id@,
                    opt_ref_view(folder_id),
                    name@,
                    method@,
                    url@,
                    headers@,
                    params@,
                    body@,
                    auth@,
                    variables@,
                    sort_order,
                    now@,
                ));
                lemma_views_push(old(store).requests@, store.requests@[s0.len() as int]);
                assert(store@.requests =~= s0.push(vrow));
                lemma_push_wf(s0, vrow);
                assert(store@ =~= (StoreView {
                    requests: spec_upsert(
                        s0,
                        local_id@,
                        cloud_id@,
                        collection_id@,
                        opt_ref_view(folder_id),
                        name@,
                        method@,
                        url@,
                        headers@,
                        params@,
                        body@,
                        auth@,
                        variables@,
                        sort_order,
                        now@,
                    ),
                    ..old(store)@
                }));
            }
            Ok(result)
        },
    }
}

/// Reconciles an inbound cloud request: the idempotent create-or-update
/// keyed on `cloud_id`, under a freshly generated local id when the
/// record is new.  Parent references arrive already resolved to local
/// ids.  Both paths stamp `synced_at = now` and clear `dirty`.
pub fn upsert_from_cloud(
    store: &mut SyncStore,
    cloud_id: &str,
    collection_id: &str,
    folder_id: Option<&str>,
    name: &str,
    method: &str,
    url: &str,
    headers: &str,
    params: &str,
    body: &str,
    auth: &str,
    variables: &str,
    sort_order: i32,
    now: &str,
) -> (r: Result<SavedRequest, SyncError>)
    requires
        old(store).wf(),
    ensures
        final(store).wf(),
        has_cloud(old(store)@.requests, cloud_id@) ==> r is Ok,
        r matches Ok(c) ==> {
            &&& !has_cloud(old(store)@.requests, cloud_id@) ==> !has_id(old(store)@.requests, c@.id)
            &&& c@ == spec_upsert_row(
                old(store)@.requests,
                c@.id,
                cloud_id@,
                collection_id@,
                opt_ref_view(folder_id),
                name@,
                method@,
                url@,
                headers@,
                params@,
                body@,
                auth@,
                variables@,
                sort_order,
                now@,
            )
            &&& final(store)@ == (StoreView {
                requests: spec_upsert(
                    old(store)@.requests,
                    c@.id,
                    cloud_id@,
                    collection_id@,
                    opt_ref_view(folder_id),
                    name@,
                    method@,
                    url@,
                    headers@,
                    params@,
                    body@,
                    auth@,
                    variables@,
                    sort_order,
                    now@,
                ),
                ..old(store)@
            })
        },
        r is Err ==> r == Err::<SavedRequest, SyncError>(SyncError::StoreUnavailable)
            && final(store)@ == old(store)@ && !has_cloud(old(store)@.requests, cloud_id@),
{
    let local_id = new_local_id();
    upsert_from_cloud_with_id(
        store,
        local_id.as_str(),
        cloud_id,
        collection_id,
        folder_id,
        name,
        method,
        url,
        headers,
        params,
        body,
        auth,
        variables,
        sort_order,
        now,
    )
}

/// The greatest `sort_order` among the requests of one collection, or
/// -1 of none.
pub open spec fn max_sort_order_in(s: Seq<RequestView>, collection_id: Seq<char>) -> int
    decreases s.len(),
{
    if s.len() == 0 {
        -1
    } else {
        let rest = max_sort_order_in(s.drop_last(), collection_id);
        if s.last().collection_id == collection_id && s.last().sort_order > rest {
            s.last().sort_order as int
        } else {
            rest
        }
    }
}

/// A row as `create` builds it from the caller-supplied fields: the
/// default variables blob, no sync anchor, not dirty.
pub open spec fn spec_created(
    id: Seq<char>,
    data: CreateRequest,
    sort_order: i32,
    now: Seq<char>,
) -> RequestView {
    RequestView {
        id: id,
        collection_id: data.collection_id@,
        folder_id: opt_view(data.folder_id),
        name: data.name@,
        method: data.method@,
        url: data.url@,
        headers: data.headers@,
        params: data.params@,
        body: data.body@,
        auth: data.auth@,
        variables: "[]"@,
        sort_order: sort_order,
        updated_at: now,
        created_at: now,
        cloud_id: None,
        synced_at: None,
        dirty: false,
    }
}

/// Whether a request's parent references already exist locally: its
/// collection, and its folder when it names one.
pub open spec fn parent_refs_exist(
    sv: StoreView,
    collection_id: Seq<char>,
    folder_id: Option<Seq<char>>,
) -> bool {
    &&& crate::collections::has_id(sv.collections, collection_id)
    &&& (folder_id matches Some(p) ==> crate::folders::has_id(sv.folders, p))
}

/// Creates a request under a caller-chosen local id, appended after the
/// greatest `sort_order` within its collection.  A parent reference
/// that matches no row is refused with `NotFound`, as the durable
/// schema's foreign keys refuse it; past that, it succeeds exactly when
/// the id is fresh.
pub fn create_with_id(store: &mut SyncStore, local_id: &str, data: &CreateRequest, now: &str) -> (r:
    Result<SavedRequest, SyncError>)
    requires
        old(store).wf(),
        forall|i: int|
            0 <= i < old(store)@.requests.len() ==> (#[trigger] old(store)@.requests[i].sort_order)
                < i32::MAX,
    ensures
        final(store).wf(),
        !parent_refs_exist(old(store)@, data.collection_id@, opt_view(data.folder_id)) ==> r
            == Err::<SavedRequest, SyncError>(SyncError::NotFound) && final(store)@ == old(store)@,
        parent_refs_exist(old(store)@, data.collection_id@, opt_view(data.folder_id)) ==> {
            &&& r is Ok <==> !has_id(old(store)@.requests, local_id@)
            &&& r matches Ok(c) ==> {
                &&& c@ == spec_created(
                    local_id@,
                    *data,
                    (max_sort_order_in(old(store)@.requests, data.collection_id@) + 1) as i32,
                    now@,
                )
                &&& final(store)@ == (StoreView {
                    requests: old(store)@.requests.push(c@),
                    ..old(store)@
                })
            }
            &&& r is Err ==> r == Err::<SavedRequest, SyncError>(SyncError::StoreUnavailable)
                && final(store)@ == old(store)@
        },
{
    if crate::collections::get_by_id(store, data.collection_id.as_str()).is_err() {
        return Err(SyncError::NotFound);
    }
    match &data.folder_id {
        Some(p) => {
            if crate::folders::get_by_id(store, p.as_str()).is_err() {
                return Err(SyncError::NotFound);
            }
        },
        None => {},
    }
    let ghost s0 = store@.requests;
    let mut m: i32 = -1;
    let mut i: usize = 0;
    proof {
        assert(s0.take(0) =~= Seq::<RequestView>::empty());
    }
    while i < store.requests.len()
        invariant
            i <= store.requests@.len(),
            s0 == store@.requests,
            store.requests@.len() == s0.len(),
            m as int == max_sort_order_in(s0.take(i as int), data.collection_id@),
            m == -1 || exists|j: int| 0 <= j < i && s0[j].sort_order == m,
            forall|k: int| 0 <= k < s0.len() ==> (#[trigger] s0[k].sort_order) < i32::MAX,
        decreases store.requests@.len() - i,
    {
        proof {
            assert(s0.take(i + 1 as int).drop_last() =~= s0.take(i as int));
            assert(s0.take(i + 1 as int).last() == s0[i as int]);
        }
        let rq = &store.requests[i];
        if str_eq(rq.collection_id.as_str(), data.collection_id.as_str()) {
            let so = rq.sort_order;
            if so > m {
                m = so;
            }
        }
        i = i + 1;
    }
    proof {
        assert(s0.take(s0.len() as int) =~= s0);
    }
    if find_by_id(&store.requests, local_id).is_some() {
        return Err(SyncError::StoreUnavailable);
    }
    let row = SavedRequest {
        id: local_id.to_owned(),
        collection_id: data.collection_id.clone(),
        folder_id: clone_opt(&data.folder_id),
        name: data.name.clone(),
        method: data.method.clone(),
        url: data.url.clone(),
        headers: data.headers.clone(),
        params: data.params.clone(),
        body: data.body.clone(),
        auth: data.auth.clone(),
        variables: "[]".to_owned(),
        sort_order: m + 1,
        updated_at: now.to_owned(),
        created_at: now.to_owned(),
        cloud_id: None,
        synced_at: None,
        dirty: false,
    };
    let result = row.clone();
    let ghost vrow = row@;
    store.requests.push(row);
    proof {
        assert(vrow =~= spec_created(
            vrow.id,
            *data,
            (max_sort_order_in(s0, data.collection_id@) + 1) as i32,
            now@,
        ));
        lemma_views_push(old(store).requests@, store.requests@[s0.len() as int]);
        assert(store@.requests =~= s0.push(vrow));
        lemma_push_wf(s0, vrow);
        assert(store@ =~= (StoreView { requests: s0.push(vrow), ..old(store)@ }));
    }
    Ok(result)
}

/// Creates a request under a freshly generated local id, appended after
/// the greatest `sort_order` within its collection.  A parent reference
/// that matches no row is refused with `NotFound`; the only other
/// failure is the drawn local id colliding with an existing row, which
/// leaves the store untouched; `create_with_id` carries the exact
/// success law.
pub fn create(store: &mut SyncStore, data: &CreateRequest, now: &str) -> (r: Result<
    SavedRequest,
    SyncError,
>)
    requires
        old(store).wf(),
        forall|i: int|
            0 <= i < old(store)@.requests.len() ==> (#[trigger] old(store)@.requests[i].sort_order)
                < i32::MAX,
    ensures
        final(store).wf(),
        !parent_refs_exist(old(store)@, data.collection_id@, opt_view(data.folder_id)) ==> r
            == Err::<SavedRequest, SyncError>(SyncError::NotFound) && final(store)@ == old(store)@,
        parent_refs_exist(old(store)@, data.collection_id@, opt_view(data.folder_id)) ==> {
            &&& r matches Ok(c) ==> {
                &&& !has_id(old(store)@.requests, c@.id)
                &&& c@ == spec_created(
                    c@.id,
                    *data,
                    (max_sort_order_in(old(store)@.requests, data.collection_id@) + 1) as i32,
                    now@,
                )
                &&& final(store)@ == (StoreView {
                    requests: old(store)@.requests.push(c@),
                    ..old(store)@
                })
            }
            &&& r is Err ==> r == Err::<SavedRequest, SyncError>(SyncError::StoreUnavailable)
                && final(store)@ == old(store)@
        },
{
    let local_id = new_local_id();
    create_with_id(store, local_id.as_str(), data, now)
}

/// Looks a request up by its local id.
pub fn get_by_id(store: &SyncStore, id: &str) -> (r: Result<SavedRequest, SyncError>)
    requires
        store.wf(),
    ensures
        match r {
            Ok(c) => has_id(store@.requests, id@) && c@ == store@.requests[id_index(
                store@.requests,
                id@,
            )],
            Err(e) => e == SyncError::NotFound && !has_id(store@.requests, id@),
        },
{
    match find_by_id(&store.requests, id) {
        Some(i) => {
            proof {
                lemma_id_index_is(store@.requests, id@, i as int);
            }
            Ok(store.requests[i].clone())
        },
        None => Err(SyncError::NotFound),
    }
}

/// The display order of requests: by `sort_order`, ties broken by the
/// creation stamp's text order.
pub open spec fn row_le(a: RequestView, b: RequestView) -> bool {
    ||| a.sort_order < b.sort_order
    ||| (a.sort_order == b.sort_order && lex_le(a.created_at, b.created_at))
}

pub open spec fn sorted_rows(s: Seq<RequestView>) -> bool {
    forall|i: int, j: int| 0 <= i < j < s.len() ==> row_le(s[i], s[j])
}

proof fn lemma_row_le_total(a: RequestView, b: RequestView)
    ensures
        row_le(a, b) || row_le(b, a),
{
    lemma_lex_le_total(a.created_at, b.created_at);
}

proof fn lemma_row_le_trans(a: RequestView, b: RequestView, c: RequestView)
    requires
        row_le(a, b),
        row_le(b, c),
    ensures
        row_le(a, c),
{
    if a.sort_order == b.sort_order && b.sort_order == c.sort_order {
        lemma_lex_le_trans(a.created_at, b.created_at, c.created_at);
    }
}

fn row_le_exec(a: &SavedRequest, b: &SavedRequest) -> (r: bool)
    ensures
        r == row_le(a@, b@),
{
    if a.sort_order < b.sort_order {
        true
    } else if a.sort_order > b.sort_order {
        false
    } else {
        str_le(a.created_at.as_str(), b.created_at.as_str())
    }
}

/// The position at which a row joins a sorted list: past everything at
/// most equal to it.
fn insert_pos(out: &Vec<SavedRequest>, x: &SavedRequest) -> (p: usize)
    ensures
        p <= out@.len(),
        forall|k: int| 0 <= k < p ==> row_le(views(out@)[k], x@),
        p < out@.len() ==> !row_le(views(out@)[p as int], x@),
{
    let mut j: usize = 0;
    while j < out.len()
        invariant
            j <= out@.len(),
            forall|k: int| 0 <= k < j ==> row_le(views(out@)[k], x@),
        decreases out@.len() - j,
    {
        if !row_le_exec(&out[j], x) {
            return j;
        }
        j = j + 1;
    }
    j
}

/// Sorts rows into display order: the same rows, ordered by
/// `sort_order` with ties in creation-stamp order.
fn sort_rows(rows: Vec<SavedRequest>) -> (r: Vec<SavedRequest>)
    ensures
        views(r@).to_multiset() == views(rows@).to_multiset(),
        sorted_rows(views(r@)),
{
    let ghost s0 = views(rows@);
    let mut out: Vec<SavedRequest> = Vec::new();
    let mut i: usize = 0;
    proof {
        assert(views(out@) =~= s0.take(0));
    }
    while i < rows.len()
        invariant
            i <= rows@.len(),
            s0 == views(rows@),
            rows@.len() == s0.len(),
            views(out@).to_multiset() == s0.take(i as int).to_multiset(),
            sorted_rows(views(out@)),
        decreases rows@.len() - i,
    {
        let x = rows[i].clone();
        let ghost xv = x@;
        let p = insert_pos(&out, &x);
        let ghost prev = out@;
        let ghost vout = views(prev);
        out.insert(p, x);
        proof {
            lemma_views_insert(prev, p as int, out@[p as int]);
            assert(views(out@) =~= vout.insert(p as int, xv));
            vstd::seq_lib::to_multiset_insert(vout, p as int, xv);
            assert(s0.take(i + 1 as int) =~= s0.take(i as int).push(s0[i as int]));
            vstd::seq_lib::to_multiset_build(s0.take(i as int), s0[i as int]);
            let n = views(out@);
            assert forall|a: int, b: int| 0 <= a < b < n.len() implies row_le(n[a], n[b]) by {
                if b < p {
                    assert(row_le(vout[a], vout[b]));
                } else if a > p {
                    assert(row_le(vout[a - 1], vout[b - 1]));
                } else if a < p && b == p {
                    assert(row_le(vout[a], xv));
                } else if a == p && b > p {
                    assert(!row_le(vout[p as int], xv));
                    lemma_row_le_total(vout[p as int], xv);
                    if b - 1 > p {
                        assert(row_le(vout[p as int], vout[b - 1]));
                        lemma_row_le_trans(xv, vout[p as int], vout[b - 1]);
                    }
                } else {
                    assert(a < p && b > p);
                    assert(row_le(vout[a], vout[b - 1]));
                }
            }
        }
        i = i + 1;
    }
    proof {
        assert(s0.take(s0.len() as int) =~= s0);
    }
    out
}

/// All requests, in display order: by `sort_order`, ties in
/// creation-stamp order; the result holds exactly the store's rows.
pub fn get_all(store: &SyncStore) -> (r: Vec<SavedRequest>)
    ensures
        views(r@).to_multiset() == store@.requests.to_multiset(),
        sorted_rows(views(r@)),
{
    let ghost s0 = store@.requests;
    let mut out: Vec<SavedRequest> = Vec::new();
    let mut i: usize = 0;
    proof {
        assert(views(out@) =~= s0.take(0));
    }
    while i < store.requests.len()
        invariant
            i <= store.requests@.len(),
            s0 == store@.requests,
            store.requests@.len() == s0.len(),
            views(out@) == s0.take(i as int),
        decreases store.requests@.len() - i,
    {
        let ghost vout = out@;
        out.push(store.requests[i].clone());
        proof {
            lemma_views_push(vout, out@[vout.len() as int]);
            assert(views(out@) =~= s0.take(i + 1 as int));
        }
        i = i + 1;
    }
    proof {
        assert(s0.take(s0.len() as int) =~= s0);
    }
    sort_rows(out)
}

/// A dirty request awaits a push.
pub open spec fn dirty_pred() -> spec_fn(RequestView) -> bool {
    |r: RequestView| r.dirty
}

/// The requests that need pushing.
pub fn get_dirty(store: &SyncStore) -> (r: Vec<SavedRequest>)
    ensures
        views(r@) == keep(store@.requests, dirty_pred()),
{
    let ghost s0 = store@.requests;
    let mut out: Vec<SavedRequest> = Vec::new();
    let mut i: usize = 0;
    proof {
        assert(views(out@) =~= keep(s0.take(0), dirty_pred()));
    }
    while i < store.requests.len()
        invariant
            i <= store.requests@.len(),
            s0 == store@.requests,
            store.requests@.len() == s0.len(),
            views(out@) == keep(s0.take(i as int), dirty_pred()),
        decreases store.requests@.len() - i,
    {
        proof {
            assert(s0.take(i + 1 as int).drop_last() =~= s0.take(i as int));
            assert(s0.take(i + 1 as int).last() == s0[i as int]);
        }
        let rq = &store.requests[i];
        if rq.dirty {
            let ghost vout = out@;
            out.push(rq.clone());
            proof {
                lemma_views_push(vout, out@[vout.len() as int]);
                assert(views(out@) =~= keep(s0.take(i + 1 as int), dirty_pred()));
            }
        }
        i = i + 1;
    }
    proof {
        assert(s0.take(s0.len() as int) =~= s0);
    }
    out
}

/// A row bound to its remote identity: anchored, stamped, clean.
pub open spec fn spec_bound(r: RequestView, cloud_id: Seq<char>, now: Seq<char>) -> RequestView {
    RequestView { cloud_id: Some(cloud_id), synced_at: Some(now), dirty: false, ..r }
}

/// Whether binding `id` to `cloud_id` would conflict: the row is
/// already mapped to a different remote id, or another row is already
/// mapped to this one.
pub open spec fn bind_conflict(s: Seq<RequestView>, i: int, cloud_id: Seq<char>) -> bool {
    ||| s[i].cloud_id is Some && s[i].cloud_id != Some(cloud_id)
    ||| exists|j: int| 0 <= j < s.len() && j != i && s[j].cloud_id == Some(cloud_id)
}

/// Binds a local request to its remote identity after a successful
/// push: records `cloud_id`, stamps `synced_at = now` and clears
/// `dirty`, all in one step.  Binding the same pair again is harmless;
/// binding either id to a different counterpart is refused with
/// `ConflictingIdentity` and changes nothing.
pub fn mark_synced(store: &mut SyncStore, id: &str, cloud_id: &str, now: &str) -> (r: Result<
    (),
    SyncError,
>)
    requires
        old(store).wf(),
    ensures
        final(store).wf(),
        ({
            let s0 = old(store)@.requests;
            if !has_id(s0, id@) {
                r == Err::<(), SyncError>(SyncError::NotFound) && final(store)@ == old(store)@
            } else if bind_conflict(s0, id_index(s0, id@), cloud_id@) {
                r == Err::<(), SyncError>(SyncError::ConflictingIdentity) && final(store)@ == old(
                    store,
                )@
            } else {
                r == Ok::<(), SyncError>(()) && final(store)@ == (StoreView {
                    requests: s0.update(
                        id_index(s0, id@),
                        spec_bound(s0[id_index(s0, id@)], cloud_id@, now@),
                    ),
                    ..old(store)@
                })
            }
        }),
{
    let ghost s0 = store@.requests;
    let i = match find_by_id(&store.requests, id) {
        Some(i) => i,
        None => {
            return Err(SyncError::NotFound);
        },
    };
    proof {
        lemma_id_index_is(s0, id@, i as int);
    }
    match &store.requests[i].cloud_id {
        Some(existing) => {
            if !str_eq(existing.as_str(), cloud_id) {
                return Err(SyncError::ConflictingIdentity);
            }
        },
        None => {},
    }
    match find_by_cloud(&store.requests, cloud_id) {
        Some(k) => {
            if k != i {
                proof {
                    assert(bind_conflict(s0, i as int, cloud_id@));
                }
                return Err(SyncError::ConflictingIdentity);
            }
        },
        None => {},
    }
    proof {
        assert(!bind_conflict(s0, i as int, cloud_id@)) by {
            if s0[i as int].cloud_id is Some {
                assert(s0[i as int].cloud_id == Some(cloud_id@));
                if exists|j: int| 0 <= j < s0.len() && j != i && s0[j].cloud_id == Some(cloud_id@) {
                    let j = choose|j: int|
                        0 <= j < s0.len() && j != i && s0[j].cloud_id == Some(cloud_id@);
                    lemma_cloud_index_is(s0, cloud_id@, j);
                    lemma_cloud_index_is(s0, cloud_id@, i as int);
                }
            } else {
                if exists|j: int| 0 <= j < s0.len() && j != i && s0[j].cloud_id == Some(cloud_id@) {
                    assert(has_cloud(s0, cloud_id@));
                }
            }
        }
    }
    let prev = &store.requests[i];
    let row = SavedRequest {
        id: prev.id.clone(),
        collection_id: prev.collection_id.clone(),
        folder_id: clone_opt(&prev.folder_id),
        name: prev.name.clone(),
        method: prev.method.clone(),
        url: prev.url.clone(),
        headers: prev.headers.clone(),
        params: prev.params.clone(),
        body: prev.body.clone(),
        auth: prev.auth.clone(),
        variables: prev.variables.clone(),
        sort_order: prev.sort_order,
        updated_at: prev.updated_at.clone(),
        created_at: prev.created_at.clone(),
        cloud_id: Some(cloud_id.to_owned()),
        synced_at: Some(now.to_owned()),
        dirty: false,
    };
    let ghost vrow = row@;
    store.requests[i] = row;
    proof {
        assert(vrow =~= spec_bound(s0[i as int], cloud_id@, now@));
        lemma_views_update(old(store).requests@, i as int, store.requests@[i as int]);
        assert(store@.requests =~= s0.update(i as int, vrow));
        assert(vrow.cloud_id == s0[i as int].cloud_id || (forall|j: int|
            0 <= j < s0.len() && j != i ==> s0[j].cloud_id != vrow.cloud_id)) by {
            if s0[i as int].cloud_id is None {
                assert(!has_cloud(s0, cloud_id@));
                assert forall|j: int|
                    0 <= j < s0.len() && j != i implies s0[j].cloud_id != vrow.cloud_id by {
                    if s0[j].cloud_id == Some(cloud_id@) {
                        assert(has_cloud(s0, cloud_id@));
                    }
                }
            }
        }
        lemma_update_wf(s0, i as int, vrow);
        assert(store@ =~= (StoreView {
            requests: s0.update(i as int, spec_bound(s0[i as int], cloud_id@, now@)),
            ..old(store)@
        }));
    }
    Ok(())
}

/// A row flagged for a future push, but only if it is anchored.
pub open spec fn spec_marked(r: RequestView) -> RequestView {
    RequestView { dirty: if anchored(r) { true } else { r.dirty }, ..r }
}

/// Flags a request as needing a push after a local mutation.  A request
/// that was never synced (no `cloud_id`) is left untouched.  An unknown
/// id is a silent no-op.
pub fn mark_dirty(store: &mut SyncStore, id: &str)
    requires
        old(store).wf(),
    ensures
        final(store).wf(),
        ({
            let s0 = old(store)@.requests;
            if has_id(s0, id@) {
                final(store)@ == (StoreView {
                    requests: s0.update(id_index(s0, id@), spec_marked(s0[id_index(s0, id@)])),
                    ..old(store)@
                })
            } else {
                final(store)@ == old(store)@
            }
        }),
{
    let ghost s0 = store@.requests;
    let i = match find_by_id(&store.requests, id) {
        Some(i) => i,
        None => {
            return ;
        },
    };
    proof {
        lemma_id_index_is(s0, id@, i as int);
    }
    let anchored_row = store.requests[i].cloud_id.is_some();
    if anchored_row {
        store.requests[i].dirty = true;
    }
    proof {
        lemma_views_update(old(store).requests@, i as int, store.requests@[i as int]);
        assert(store@.requests =~= s0.update(i as int, spec_marked(s0[i as int])));
        lemma_update_wf(s0, i as int, spec_marked(s0[i as int]));
        assert(store@ =~= (StoreView {
            requests: s0.update(i as int, spec_marked(s0[i as int])),
            ..old(store)@
        }));
    }
}

/// A row after a partial update: each `Some` field of the update is
/// written, `updated_at` is stamped, and the row is flagged dirty
/// exactly when it carries a remote anchor.
pub open spec fn spec_updated(r: RequestView, u: UpdateRequest, now: Seq<char>) -> RequestView {
    RequestView {
        name: match u.name {
            Some(x) => x@,
            None => r.name,
        },
        method: match u.method {
            Some(x) => x@,
            None => r.method,
        },
        url: match u.url {
            Some(x) => x@,
            None => r.url,
        },
        headers: match u.headers {
            Some(x) => x@,
            None => r.headers,
        },
        params: match u.params {
            Some(x) => x@,
            None => r.params,
        },
        body: match u.body {
            Some(x) => x@,
            None => r.body,
        },
        auth: match u.auth {
            Some(x) => x@,
            None => r.auth,
        },
        variables: match u.variables {
            Some(x) => x@,
            None => r.variables,
        },
        updated_at: now,
        dirty: if anchored(r) {
            true
        } else {
            r.dirty
        },
        ..r
    }
}

/// Applies a partial update to a request.  A no-op update (every field
/// `None`) changes nothing; otherwise the `Some` fields are written and
/// the row is dirtied exactly when it has been synced before.  An
/// unknown id is a silent no-op.
pub fn update(store: &mut SyncStore, id: &str, data: &UpdateRequest, now: &str)
    requires
        old(store).wf(),
    ensures
        final(store).wf(),
        ({
            let s0 = old(store)@.requests;
            if has_id(s0, id@) && !data.spec_is_noop() {
                final(store)@ == (StoreView {
                    requests: s0.update(
                        id_index(s0, id@),
                        spec_updated(s0[id_index(s0, id@)], *data, now@),
                    ),
                    ..old(store)@
                })
            } else {
                final(store)@ == old(store)@
            }
        }),
{
    if data.is_noop() {
        return ;
    }
    let ghost s0 = store@.requests;
    let i = match find_by_id(&store.requests, id) {
        Some(i) => i,
        None => {
            return ;
        },
    };
    proof {
        lemma_id_index_is(s0, id@, i as int);
    }
    let prev = &store.requests[i];
    let row = SavedRequest {
        id: prev.id.clone(),
        collection_id: prev.collection_id.clone(),
        folder_id: clone_opt(&prev.folder_id),
        name: match &data.name {
            Some(x) => x.clone(),
            None => prev.name.clone(),
        },
        method: match &data.method {
            Some(x) => x.clone(),
            None => prev.method.clone(),
        },
        url: match &data.url {
            Some(x) => x.clone(),
            None => prev.url.clone(),
        },
        headers: match &data.headers {
            Some(x) => x.clone(),
            None => prev.headers.clone(),
        },
        params: match &data.params {
            Some(x) => x.clone(),
            None => prev.params.clone(),
        },
        body: match &data.body {
            Some(x) => x.clone(),
            None => prev.body.clone(),
        },
        auth: match &data.auth {
            Some(x) => x.clone(),
            None => prev.auth.clone(),
        },
        variables: match &data.variables {
            Some(x) => x.clone(),
            None => prev.variables.clone(),
        },
        sort_order: prev.sort_order,
        updated_at: now.to_owned(),
        created_at: prev.created_at.clone(),
        cloud_id: clone_opt(&prev.cloud_id),
        synced_at: clone_opt(&prev.synced_at),
        dirty: if prev.cloud_id.is_some() {
            true
        } else {
            prev.dirty
        },
    };
    let ghost vrow = row@;
    store.requests[i] = row;
    proof {
        assert(vrow =~= spec_updated(s0[i as int], *data, now@));
        lemma_views_update(old(store).requests@, i as int, store.requests@[i as int]);
        assert(store@.requests =~= s0.update(i as int, vrow));
        lemma_update_wf(s0, i as int, vrow);
        assert(store@ =~= (StoreView { requests: s0.update(i as int, vrow), ..old(store)@ }));
    }
}

/// Deletes a request row by its local id; an unknown id is a silent
/// no-op.  This is the plain local delete: the guarded path for synced
/// rows is the orchestrator's to enforce.
pub fn delete(store: &mut SyncStore, id: &str)
    requires
        old(store).wf(),
    ensures
        final(store).wf(),
        ({
            let s0 = old(store)@.requests;
            if has_id(s0, id@) {
                final(store)@ == (StoreView {
                    requests: s0.remove(id_index(s0, id@)),
                    ..old(store)@
                })
            } else {
                final(store)@ == old(store)@
            }
        }),
{
    let ghost s0 = store@.requests;
    let i = match find_by_id(&store.requests, id) {
        Some(i) => i,
        None => {
            return ;
        },
    };
    proof {
        lemma_id_index_is(s0, id@, i as int);
    }
    store.requests.remove(i);
    proof {
        lemma_views_remove(old(store).requests@, i as int);
        assert(store@.requests =~= s0.remove(i as int));
        lemma_remove_pairwise(s0, i as int, |a: RequestView, b: RequestView| a.id != b.id);
        lemma_remove_pairwise(
            s0,
            i as int,
            |a: RequestView, b: RequestView| a.cloud_id is Some ==> a.cloud_id != b.cloud_id,
        );
        assert forall|k: int|
            0 <= k < s0.remove(i as int).len() && s0.remove(i as int)[k].dirty implies anchored(
            s0.remove(i as int)[k],
        ) by {
            if k < i {
                assert(s0.remove(i as int)[k] == s0[k]);
            } else {
                assert(s0.remove(i as int)[k] == s0[k + 1]);
            }
        }
        assert(unique_ids(s0.remove(i as int)));
        assert(unique_cloud_ids(s0.remove(i as int)));
        assert(store@ =~= (StoreView { requests: s0.remove(i as int), ..old(store)@ }));
    }
}

/// The copy `duplicate` makes of a row: same parents and content, a
/// "Copy of" name, the default variables blob, appended after the
/// greatest `sort_order` of its collection, and never carrying the
/// original's sync state.
pub open spec fn spec_duplicated(
    id: Seq<char>,
    orig: RequestView,
    sort_order: i32,
    now: Seq<char>,
) -> RequestView {
    RequestView {
        id: id,
        collection_id: orig.collection_id,
        folder_id: orig.folder_id,
        name: "Copy of "@ + orig.name,
        method: orig.method,
        url: orig.url,
        headers: orig.headers,
        params: orig.params,
        body: orig.body,
        auth: orig.auth,
        variables: "[]"@,
        sort_order: sort_order,
        updated_at: now,
        created_at: now,
        cloud_id: None,
        synced_at: None,
        dirty: false,
    }
}

/// Duplicates a request under a caller-chosen local id.  The copy
/// starts unsynced: it carries no remote id, no sync stamp and is not
/// dirty, whatever the original carried.  Past the source lookup, it
/// succeeds exactly when the chosen id is fresh.
pub fn duplicate_with_id(store: &mut SyncStore, id: &str, local_id: &str, now: &str) -> (r: Result<
    SavedRequest,
    SyncError,
>)
    requires
        old(store).wf(),
        forall|i: int|
            0 <= i < old(store)@.requests.len() ==> (#[trigger] old(store)@.requests[i].sort_order)
                < i32::MAX,
    ensures
        final(store).wf(),
        !has_id(old(store)@.requests, id@) ==> r == Err::<SavedRequest, SyncError>(
            SyncError::NotFound,
        ) && final(store)@ == old(store)@,
        has_id(old(store)@.requests, id@) ==> {
            &&& r is Ok <==> !has_id(old(store)@.requests, local_id@)
            &&& r matches Ok(c) ==> {
                &&& c@ == spec_duplicated(
                    local_id@,
                    old(store)@.requests[id_index(old(store)@.requests, id@)],
                    (max_sort_order_in(
                        old(store)@.requests,
                        old(store)@.requests[id_index(old(store)@.requests, id@)].collection_id,
                    ) + 1) as i32,
                    now@,
                )
                &&& final(store)@ == (StoreView {
                    requests: old(store)@.requests.push(c@),
                    ..old(store)@
                })
            }
            &&& r is Err ==> r == Err::<SavedRequest, SyncError>(SyncError::StoreUnavailable)
                && final(store)@ == old(store)@
        },
{
    let ghost s0 = store@.requests;
    let oi = match find_by_id(&store.requests, id) {
        Some(i) => i,
        None => {
            return Err(SyncError::NotFound);
        },
    };
    proof {
        lemma_id_index_is(s0, id@, oi as int);
    }
    let orig = store.requests[oi].clone();
    let mut m: i32 = -1;
    let mut i: usize = 0;
    proof {
        assert(s0.take(0) =~= Seq::<RequestView>::empty());
    }
    while i < store.requests.len()
        invariant
            i <= store.requests@.len(),
            s0 == store@.requests,
            store.requests@.len() == s0.len(),
            orig@.collection_id == s0[oi as int].collection_id,
            m as int == max_sort_order_in(s0.take(i as int), orig@.collection_id),
            m == -1 || exists|j: int| 0 <= j < i && s0[j].sort_order == m,
            forall|k: int| 0 <= k < s0.len() ==> (#[trigger] s0[k].sort_order) < i32::MAX,
        decreases store.requests@.len() - i,
    {
        proof {
            assert(s0.take(i + 1 as int).drop_last() =~= s0.take(i as int));
            assert(s0.take(i + 1 as int).last() == s0[i as int]);
        }
        let rq = &store.requests[i];
        if str_eq(rq.collection_id.as_str(), orig.collection_id.as_str()) {
            let so = rq.sort_order;
            if so > m {
                m = so;
            }
        }
        i = i + 1;
    }
    proof {
        assert(s0.take(s0.len() as int) =~= s0);
    }
    if find_by_id(&store.requests, local_id).is_some() {
        return Err(SyncError::StoreUnavailable);
    }
    let mut copy_name: String = "Copy of ".to_owned();
    copy_name.append(orig.name.as_str());
    let row = SavedRequest {
        id: local_id.to_owned(),
        collection_id: orig.collection_id.clone(),
        folder_id: clone_opt(&orig.folder_id),
        name: copy_name,
        method: orig.method.clone(),
        url: orig.url.clone(),
        headers: orig.headers.clone(),
        params: orig.params.clone(),
        body: orig.body.clone(),
        auth: orig.auth.clone(),
        variables: "[]".to_owned(),
        sort_order: m + 1,
        updated_at: now.to_owned(),
        created_at: now.to_owned(),
        cloud_id: None,
        synced_at: None,
        dirty: false,
    };
    let result = row.clone();
    let ghost vrow = row@;
    store.requests.push(row);
    proof {
        assert(vrow =~= spec_duplicated(
            vrow.id,
            s0[oi as int],
            (max_sort_order_in(s0, s0[oi as int].collection_id) + 1) as i32,
            now@,
        ));
        lemma_views_push(old(store).requests@, store.requests@[s0.len() as int]);
        assert(store@.requests =~= s0.push(vrow));
        lemma_push_wf(s0, vrow);
        assert(store@ =~= (StoreView { requests: s0.push(vrow), ..old(store)@ }));
    }
    Ok(result)
}

/// Duplicates a request under a freshly generated local id.  The copy
/// starts unsynced: it carries no remote id, no sync stamp and is not
/// dirty, whatever the original carried.  The only failure past the
/// source lookup is the drawn local id colliding with an existing row,
/// which leaves the store untouched; `duplicate_with_id` carries the
/// exact success law.
pub fn duplicate(store: &mut SyncStore, id: &str, now: &str) -> (r: Result<
    SavedRequest,
    SyncError,
>)
    requires
        old(store).wf(),
        forall|i: int|
            0 <= i < old(store)@.requests.len() ==> (#[trigger] old(store)@.requests[i].sort_order)
                < i32::MAX,
    ensures
        final(store).wf(),
        !has_id(old(store)@.requests, id@) ==> r == Err::<SavedRequest, SyncError>(
            SyncError::NotFound,
        ) && final(store)@ == old(store)@,
        r matches Ok(c) ==> {
            &&& has_id(old(store)@.requests, id@)
            &&& !has_id(old(store)@.requests, c@.id)
            &&& c@ == spec_duplicated(
                c@.id,
                old(store)@.requests[id_index(old(store)@.requests, id@)],
                (max_sort_order_in(
                    old(store)@.requests,
                    old(store)@.requests[id_index(old(store)@.requests, id@)].collection_id,
                ) + 1) as i32,
                now@,
            )
            &&& final(store)@ == (StoreView {
                requests: old(store)@.requests.push(c@),
                ..old(store)@
            })
        },
        r == Err::<SavedRequest, SyncError>(SyncError::StoreUnavailable) ==> final(store)@ == old(
            store,
        )@,
{
    let local_id = new_local_id();
    duplicate_with_id(store, id, local_id.as_str(), now)
}

/// A row moved to another folder or collection, with `updated_at`
/// stamped; content and sync state stay.
pub open spec fn spec_moved(
    r: RequestView,
    folder_id: Option<Seq<char>>,
    collection_id: Seq<char>,
    now: Seq<char>,
) -> RequestView {
    RequestView { collection_id: collection_id, folder_id: folder_id, updated_at: now, ..r }
}

/// Moves a request to another folder or collection.  An unknown id is a
/// silent no-op.
pub fn move_request(
    store: &mut SyncStore,
    id: &str,
    folder_id: Option<&str>,
    collection_id: &str,
    now: &str,
)
    requires
        old(store).wf(),
    ensures
        final(store).wf(),
        ({
            let s0 = old(store)@.requests;
            if has_id(s0, id@) {
                final(store)@ == (StoreView {
                    requests: s0.update(
                        id_index(s0, id@),
                        spec_moved(
                            s0[id_index(s0, id@)],
                            opt_ref_view(folder_id),
                            collection_id@,
                            now@,
                        ),
                    ),
                    ..old(store)@
                })
            } else {
                final(store)@ == old(store)@
            }
        }),
{
    let ghost s0 = store@.requests;
    let i = match find_by_id(&store.requests, id) {
        Some(i) => i,
        None => {
            return ;
        },
    };
    proof {
        lemma_id_index_is(s0, id@, i as int);
    }
    let prev = &store.requests[i];
    let row = SavedRequest {
        id: prev.id.clone(),
        collection_id: collection_id.to_owned(),
        folder_id: own_opt(&folder_id),
        name: prev.name.clone(),
        method: prev.method.clone(),
        url: prev.url.clone(),
        headers: prev.headers.clone(),
        params: prev.params.clone(),
        body: prev.body.clone(),
        auth: prev.auth.clone(),
        variables: prev.variables.clone(),
        sort_order: prev.sort_order,
        updated_at: now.to_owned(),
        created_at: prev.created_at.clone(),
        cloud_id: clone_opt(&prev.cloud_id),
        synced_at: clone_opt(&prev.synced_at),
        dirty: prev.dirty,
    };
    let ghost vrow = row@;
    store.requests[i] = row;
    proof {
        assert(vrow =~= spec_moved(
            s0[i as int],
            opt_ref_view(folder_id),
            collection_id@,
            now@,
        ));
        lemma_views_update(old(store).requests@, i as int, store.requests@[i as int]);
        assert(store@.requests =~= s0.update(i as int, vrow));
        lemma_update_wf(s0, i as int, vrow);
        assert(store@ =~= (StoreView { requests: s0.update(i as int, vrow), ..old(store)@ }));
    }
}

} // verus!
