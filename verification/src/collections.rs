use vstd::prelude::*;
use crate::error::SyncError;
use crate::folders::Folder;
use crate::folders::FolderView;
use crate::ids::new_local_id;
use crate::requests::RequestView;
use crate::requests::SavedRequest;
use crate::store::keep;
use crate::store::lemma_keep_membership;
use crate::store::lemma_views_insert;
use crate::store::lemma_keep_pairwise;
use crate::store::lemma_remove_pairwise;
use crate::store::lemma_views_push;
use crate::store::lemma_views_remove;
use crate::store::lemma_views_update;
use crate::store::views;
use crate::store::StoreView;
use crate::store::SyncStore;
use crate::strutil::clone_opt;
use crate::strutil::opt_is;
use crate::strutil::opt_view;
use crate::strutil::lemma_lex_le_total;
use crate::strutil::lemma_lex_le_trans;
use crate::strutil::lex_le;
use crate::strutil::str_eq;
use crate::strutil::str_le;

verus! {

/// A collection of saved requests.  `team_id` is the sync anchor: it is
/// `Some` exactly when the collection is shared with a team, and only a
/// shared collection may ever become dirty.
#[derive(Debug)]
pub struct Collection {
    pub id: String,
    pub name: String,
    pub description: String,
    pub default_headers: String,
    pub default_auth: String,
    pub variables: String,
    pub sort_order: i32,
    pub updated_at: String,
    pub created_at: String,
    pub team_id: Option<String>,
    pub cloud_id: Option<String>,
    pub synced_at: Option<String>,
    pub dirty: bool,
}

#[verifier::ext_equal]
pub ghost struct CollectionView {
    pub id: Seq<char>,
    pub name: Seq<char>,
    pub description: Seq<char>,
    pub default_headers: Seq<char>,
    pub default_auth: Seq<char>,
    pub variables: Seq<char>,
    pub sort_order: i32,
    pub updated_at: Seq<char>,
    pub created_at: Seq<char>,
    pub team_id: Option<Seq<char>>,
    pub cloud_id: Option<Seq<char>>,
    pub synced_at: Option<Seq<char>>,
    pub dirty: bool,
}

impl View for Collection {
    type V = CollectionView;

    open spec fn view(&self) -> CollectionView {
        CollectionView {
            id: self.id@,
            name: self.name@,
            description: self.description@,
            default_headers: self.default_headers@,
            default_auth: self.default_auth@,
            variables: self.variables@,
            sort_order: self.sort_order,
            updated_at: self.updated_at@,
            created_at: self.created_at@,
            team_id: opt_view(self.team_id),
            cloud_id: opt_view(self.cloud_id),
            synced_at: opt_view(self.synced_at),
            dirty: self.dirty,
        }
    }
}

impl Clone for Collection {
    fn clone(&self) -> (res: Self)
        ensures
            res@ == self@,
    {
        Collection {
            id: self.id.clone(),
            name: self.name.clone(),
            description: self.description.clone(),
            default_headers: self.default_headers.clone(),
            default_auth: self.default_auth.clone(),
            variables: self.variables.clone(),
            sort_order: self.sort_order,
            updated_at: self.updated_at.clone(),
            created_at: self.created_at.clone(),
            team_id: clone_opt(&self.team_id),
            cloud_id: clone_opt(&self.cloud_id),
            synced_at: clone_opt(&self.synced_at),
            dirty: self.dirty,
        }
    }
}

/// The sync anchor of a collection: membership in a team.
pub open spec fn anchored(c: CollectionView) -> bool {
    c.team_id is Some
}

pub open spec fn unique_ids(s: Seq<CollectionView>) -> bool {
    forall|i: int, j: int| 0 <= i < j < s.len() ==> s[i].id != s[j].id
}

/// At most one local row maps to a given remote id.
pub open spec fn unique_cloud_ids(s: Seq<CollectionView>) -> bool {
    forall|i: int, j: int|
        0 <= i < j < s.len() && s[i].cloud_id is Some ==> s[i].cloud_id != s[j].cloud_id
}

/// A row without a sync anchor is never dirty.
pub open spec fn dirty_anchored(s: Seq<CollectionView>) -> bool {
    forall|i: int| 0 <= i < s.len() ==> (s[i].dirty ==> anchored(s[i]))
}

pub open spec fn has_id(s: Seq<CollectionView>, id: Seq<char>) -> bool {
    exists|i: int| 0 <= i < s.len() && s[i].id == id
}

pub open spec fn id_index(s: Seq<CollectionView>, id: Seq<char>) -> int {
    choose|i: int| 0 <= i < s.len() && s[i].id == id
}

pub open spec fn has_cloud(s: Seq<CollectionView>, cloud: Seq<char>) -> bool {
    exists|i: int| 0 <= i < s.len() && s[i].cloud_id == Some(cloud)
}

pub open spec fn cloud_index(s: Seq<CollectionView>, cloud: Seq<char>) -> int {
    choose|i: int| 0 <= i < s.len() && s[i].cloud_id == Some(cloud)
}

/// A partial update: a field is overwritten exactly when it is `Some`.
#[derive(Debug)]
pub struct UpdateCollection {
    pub name: Option<String>,
    pub description: Option<String>,
    pub default_headers: Option<String>,
    pub default_auth: Option<String>,
    pub variables: Option<String>,
}

impl UpdateCollection {
    /// Whether the update writes nothing: every field is `None`.
    pub open spec fn spec_is_noop(self) -> bool {
        &&& self.name is None
        &&& self.description is None
        &&& self.default_headers is None
        &&& self.default_auth is None
        &&& self.variables is None
    }

    pub fn is_noop(&self) -> (r: bool)
        ensures
            r == self.spec_is_noop(),
    {
        self.name.is_none() && self.description.is_none() && self.default_headers.is_none()
            && self.default_auth.is_none() && self.variables.is_none()
    }
}

/// With unique remote ids, any row carrying `Some(cloud)` is the row
/// `cloud_index` names.
pub proof fn lemma_cloud_index_is(s: Seq<CollectionView>, cloud: Seq<char>, i: int)
    requires
        unique_cloud_ids(s),
        0 <= i < s.len(),
        s[i].cloud_id == Some(cloud),
    ensures
        has_cloud(s, cloud),
        cloud_index(s, cloud) == i,
{
    assert(has_cloud(s, cloud));
    let k = cloud_index(s, cloud);
    if k < i {
        assert(s[k].cloud_id != s[i].cloud_id);
    } else if i < k {
        assert(s[i].cloud_id != s[k].cloud_id);
    }
}

/// With unique local ids, any row carrying `id` is the row `id_index`
/// names.
pub proof fn lemma_id_index_is(s: Seq<CollectionView>, id: Seq<char>, i: int)
    requires
        unique_ids(s),
        0 <= i < s.len(),
        s[i].id == id,
    ensures
        has_id(s, id),
        id_index(s, id) == i,
{
    assert(has_id(s, id));
    let k = id_index(s, id);
    if k < i {
        assert(s[k].id != s[i].id);
    } else if i < k {
        assert(s[i].id != s[k].id);
    }
}

/// Replacing row `i` by one with the same local id, a permissible
/// remote id and a gated dirty flag keeps the store invariants.
pub proof fn lemma_update_wf(s: Seq<CollectionView>, i: int, c: CollectionView)
    requires
        unique_ids(s),
        unique_cloud_ids(s),
        dirty_anchored(s),
        0 <= i < s.len(),
        c.id == s[i].id,
        c.dirty ==> anchored(c),
        c.cloud_id is Some ==> c.cloud_id == s[i].cloud_id || (forall|j: int|
            0 <= j < s.len() && j != i ==> s[j].cloud_id != c.cloud_id),
    ensures
        unique_ids(s.update(i, c)),
        unique_cloud_ids(s.update(i, c)),
        dirty_anchored(s.update(i, c)),
{
    let t = s.update(i, c);
    assert forall|a: int, b: int|
        0 <= a < b < t.len() && t[a].cloud_id is Some implies t[a].cloud_id != t[b].cloud_id by {
        if a != i && b != i {
            assert(s[a].cloud_id != s[b].cloud_id);
        } else if a == i {
            if c.cloud_id == s[i].cloud_id {
                assert(s[a].cloud_id != s[b].cloud_id);
            }
        } else {
            if s[a].cloud_id == c.cloud_id {
                if c.cloud_id == s[i].cloud_id {
                    assert(s[a].cloud_id != s[i].cloud_id);
                } else {
                    assert(s[a].cloud_id != c.cloud_id);
                }
            }
        }
    }
}

/// Appending a row with a fresh local id, an absent remote id and a
/// gated dirty flag keeps the store invariants.
pub proof fn lemma_push_wf(s: Seq<CollectionView>, c: CollectionView)
    requires
        unique_ids(s),
        unique_cloud_ids(s),
        dirty_anchored(s),
        !has_id(s, c.id),
        c.cloud_id matches Some(cl) ==> !has_cloud(s, cl),
        c.dirty ==> anchored(c),
    ensures
        unique_ids(s.push(c)),
        unique_cloud_ids(s.push(c)),
        dirty_anchored(s.push(c)),
{
    let t = s.push(c);
    assert forall|a: int, b: int| 0 <= a < b < t.len() implies t[a].id != t[b].id by {
        if b == s.len() {
            assert(!(s[a].id == c.id));
        }
    }
    assert forall|a: int, b: int|
        0 <= a < b < t.len() && t[a].cloud_id is Some implies t[a].cloud_id != t[b].cloud_id by {
        if b == s.len() {
            if c.cloud_id is Some {
                let cl = c.cloud_id->0;
                assert(!(s[a].cloud_id == Some(cl)));
            }
        }
    }
}

/// The first row holding `cloud_id` as its remote id, if any.
fn find_by_cloud(v: &Vec<Collection>, cloud_id: &str) -> (r: Option<usize>)
    ensures
        match r {
            Some(i) => i < v@.len() && views(v@)[i as int].cloud_id == Some(cloud_id@),
            None => !has_cloud(views(v@), cloud_id@),
        },
{
    let mut i: usize = 0;
    while i < v.len()
        invariant
            i <= v@.len(),
            forall|j: int| 0 <= j < i ==> views(v@)[j].cloud_id != Some(cloud_id@),
        decreases v@.len() - i,
    {
        if opt_is(&v[i].cloud_id, cloud_id) {
            return Some(i);
        }
        i = i + 1;
    }
    None
}

/// An existing row overwritten by an inbound cloud record: every
/// content field and the team are taken from the payload, the sync
/// stamp is refreshed and the dirty flag cleared; the local identity
/// and creation data stay.
pub open spec fn merged_from_cloud(
    c: CollectionView,
    team_id: Seq<char>,
    name: Seq<char>,
    description: Seq<char>,
    default_headers: Seq<char>,
    default_auth: Seq<char>,
    variables: Seq<char>,
    sort_order: i32,
    now: Seq<char>,
) -> CollectionView {
    CollectionView {
        name: name,
        description: description,
        default_headers: default_headers,
        default_auth: default_auth,
        variables: variables,
        sort_order: sort_order,
        team_id: Some(team_id),
        synced_at: Some(now),
        dirty: false,
        ..c
    }
}

/// A new local row cached from an inbound cloud record.
pub open spec fn fresh_from_cloud(
    local_id: Seq<char>,
    cloud_id: Seq<char>,
    team_id: Seq<char>,
    name: Seq<char>,
    description: Seq<char>,
    default_headers: Seq<char>,
    default_auth: Seq<char>,
    variables: Seq<char>,
    sort_order: i32,
    now: Seq<char>,
) -> CollectionView {
    CollectionView {
        id: local_id,
        name: name,
        description: description,
        default_headers: default_headers,
        default_auth: default_auth,
        variables: variables,
        sort_order: sort_order,
        updated_at: now,
        created_at: now,
        team_id: Some(team_id),
        cloud_id: Some(cloud_id),
        synced_at: Some(now),
        dirty: false,
    }
}

/// The reconciling upsert: update the row already mapped to `cloud_id`,
/// else insert a new row under `local_id`.
pub open spec fn spec_upsert(
    s: Seq<CollectionView>,
    local_id: Seq<char>,
    cloud_id: Seq<char>,
    team_id: Seq<char>,
    name: Seq<char>,
    description: Seq<char>,
    default_headers: Seq<char>,
    default_auth: Seq<char>,
    variables: Seq<char>,
    sort_order: i32,
    now: Seq<char>,
) -> Seq<CollectionView> {
    if has_cloud(s, cloud_id) {
        s.update(
            cloud_index(s, cloud_id),
            merged_from_cloud(
                s[cloud_index(s, cloud_id)],
                team_id,
                name,
                description,
                default_headers,
                default_auth,
                variables,
                sort_order,
                now,
            ),
        )
    } else {
        s.push(
            fresh_from_cloud(
                local_id,
                cloud_id,
                team_id,
                name,
                description,
                default_headers,
                default_auth,
                variables,
                sort_order,
                now,
            ),
        )
    }
}

/// The row an upsert returns.
pub open spec fn spec_upsert_row(
    s: Seq<CollectionView>,
    local_id: Seq<char>,
    cloud_id: Seq<char>,
    team_id: Seq<char>,
    name: Seq<char>,
    description: Seq<char>,
    default_headers: Seq<char>,
    default_auth: Seq<char>,
    variables: Seq<char>,
    sort_order: i32,
    now: Seq<char>,
) -> CollectionView {
    if has_cloud(s, cloud_id) {
        merged_from_cloud(
            s[cloud_index(s, cloud_id)],
            team_id,
            name,
            description,
            default_headers,
            default_auth,
            variables,
            sort_order,
            now,
        )
    } else {
        fresh_from_cloud(
            local_id,
            cloud_id,
            team_id,
            name,
            description,
            default_headers,
            default_auth,
            variables,
            sort_order,
            now,
        )
    }
}

/// Merges an inbound cloud record under a caller-chosen local id.
/// If a row is already mapped to `cloud_id`, that row is overwritten
/// (and `local_id` plays no part); otherwise a new row is inserted
/// under `local_id`, which must not collide with an existing row.
pub fn upsert_from_cloud_with_id(
    store: &mut SyncStore,
    local_id: &str,
    cloud_id: &str,
    team_id: &str,
    name: &str,
    description: &str,
    default_headers: &str,
    default_auth: &str,
    variables: &str,
    sort_order: i32,
    now: &str,
) -> (r: Result<Collection, SyncError>)
    requires
        old(store).wf(),
    ensures
        final(store).wf(),
        r is Ok <==> has_cloud(old(store)@.collections, cloud_id@) || !has_id(
            old(store)@.collections,
            local_id@,
        ),
        r matches Ok(c) ==> {
            &&& c@ == spec_upsert_row(
                old(store)@.collections,
                local_id@,
                cloud_id@,
                team_id@,
                name@,
                description@,
                default_headers@,
                default_auth@,
                variables@,
                sort_order,
                now@,
            )
            &&& final(store)@ == (StoreView {
                collections: spec_upsert(
                    old(store)@.collections,
                    local_id@,
                    cloud_id@,
                    team_id@,
                    name@,
                    description@,
                    default_headers@,
                    default_auth@,
                    variables@,
                    sort_order,
                    now@,
                ),
                ..old(store)@
            })
        },
        r is Err ==> r == Err::<Collection, SyncError>(SyncError::StoreUnavailable)
            && final(store)@ == old(store)@,
{
    let ghost s0 = store@.collections;
    match find_by_cloud(&store.collections, cloud_id) {
        Some(i) => {
            proof {
                lemma_cloud_index_is(s0, cloud_id@, i as int);
            }
            let prev = &store.collections[i];
            let row = Collection {
                id: prev.id.clone(),
                name: name.to_owned(),
                description: description.to_owned(),
                default_headers: default_headers.to_owned(),
                default_auth: default_auth.to_owned(),
                variables: variables.to_owned(),
                sort_order: sort_order,
                updated_at: prev.updated_at.clone(),
                created_at: prev.created_at.clone(),
                team_id: Some(team_id.to_owned()),
                cloud_id: clone_opt(&prev.cloud_id),
                synced_at: Some(now.to_owned()),
                dirty: false,
            };
            let result = row.clone();
            let ghost vrow = row@;
            store.collections[i] = row;
            proof {
                assert(vrow =~= merged_from_cloud(
                    s0[i as int],
                    team_id@,
                    name@,
                    description@,
                    default_headers@,
                    default_auth@,
                    variables@,
                    sort_order,
                    now@,
                ));
                lemma_views_update(old(store).collections@, i as int, store.collections@[i as int]);
                assert(store@.collections =~= s0.update(i as int, vrow));
                lemma_update_wf(s0, i as int, vrow);
                assert(store@ =~= (StoreView {
                    collections: spec_upsert(
                        s0,
                        local_id@,
                        cloud_id@,
                        team_id@,
                        name@,
                        description@,
                        default_headers@,
                        default_auth@,
                        variables@,
                        sort_order,
                        now@,
                    ),
                    ..old(store)@
                }));
            }
            Ok(result)
        },
        None => {
            if find_by_id(&store.collections, local_id).is_some() {
                return Err(SyncError::StoreUnavailable);
            }
            let row = Collection {
                id: local_id.to_owned(),
                name: name.to_owned(),
                description: description.to_owned(),
                default_headers: default_headers.to_owned(),
                default_auth: default_auth.to_owned(),
                variables: variables.to_owned(),
                sort_order: sort_order,
                updated_at: now.to_owned(),
                created_at: now.to_owned(),
                team_id: Some(team_id.to_owned()),
                cloud_id: Some(cloud_id.to_owned()),
                synced_at: Some(now.to_owned()),
                dirty: false,
            };
            let result = row.clone();
            let ghost vrow = row@;
            store.collections.push(row);
            proof {
                assert(vrow =~= fresh_from_cloud(
                    local_id@,
                    cloud_id@,
                    team_id@,
                    name@,
                    description@,
                    default_headers@,
                    default_auth@,
                    variables@,
                    sort_order,
                    now@,
                ));
                lemma_views_push(old(store).collections@, store.collections@[s0.len() as int]);
                assert(store@.collections =~= s0.push(vrow));
                lemma_push_wf(s0, vrow);
                assert(store@ =~= (StoreView {
                    collections: spec_upsert(
                        s0,
                        local_id@,
                        cloud_id@,
                        team_id@,
                        name@,
                        description@,
                        default_headers@,
                        default_auth@,
                        variables@,
                        sort_order,
                        now@,
                    ),
                    ..old(store)@
                }));
            }
            Ok(result)
        },
    }
}

/// Reconciles an inbound cloud record: the idempotent create-or-update.
/// A record already cached locally (matched by `cloud_id`) is updated
/// in place and keeps its local id; an unknown record is inserted under
/// a freshly generated local id.  Both paths stamp `synced_at = now`
/// and clear `dirty`.  The only failure is a drawn local id colliding
/// with an existing row, which leaves the store untouched.
pub fn upsert_from_cloud(
    store: &mut SyncStore,
    cloud_id: &str,
    team_id: &str,
    name: &str,
    description: &str,
    default_headers: &str,
    default_auth: &str,
    variables: &str,
    sort_order: i32,
    now: &str,
) -> (r: Result<Collection, SyncError>)
    requires
        old(store).wf(),
    ensures
        final(store).wf(),
        has_cloud(old(store)@.collections, cloud_id@) ==> r is Ok,
        r matches Ok(c) ==> {
            &&& !has_cloud(old(store)@.collections, cloud_id@) ==> !has_id(
                old(store)@.collections,
                c@.id,
            )
            &&& c@ == spec_upsert_row(
                old(store)@.collections,
                c@.id,
                cloud_id@,
                team_id@,
                name@,
                description@,
                default_headers@,
                default_auth@,
                variables@,
                sort_order,
                now@,
            )
            &&& final(store)@ == (StoreView {
                collections: spec_upsert(
                    old(store)@.collections,
                    c@.id,
                    cloud_id@,
                    team_id@,
                    name@,
                    description@,
                    default_headers@,
                    default_auth@,
                    variables@,
                    sort_order,
                    now@,
                ),
                ..old(store)@
            })
        },
        r is Err ==> r == Err::<Collection, SyncError>(SyncError::StoreUnavailable)
            && final(store)@ == old(store)@ && !has_cloud(old(store)@.collections, cloud_id@),
{
    let local_id = new_local_id();
    let r = upsert_from_cloud_with_id(
        store,
        local_id.as_str(),
        cloud_id,
        team_id,
        name,
        description,
        default_headers,
        default_auth,
        variables,
        sort_order,
        now,
    );
    r
}

/// The greatest `sort_order` among the rows, or -1 of none.
pub open spec fn max_sort_order(s: Seq<CollectionView>) -> int
    decreases s.len(),
{
    if s.len() == 0 {
        -1
    } else {
        let rest = max_sort_order(s.drop_last());
        if s.last().sort_order > rest {
            s.last().sort_order as int
        } else {
            rest
        }
    }
}

/// A row as `create` builds it: empty description, the default header,
/// auth and variable blobs, no sync anchor, not dirty.
pub open spec fn spec_created(
    id: Seq<char>,
    name: Seq<char>,
    sort_order: i32,
    now: Seq<char>,
) -> CollectionView {
    CollectionView {
        id: id,
        name: name,
        description: ""@,
        default_headers: "[]"@,
        default_auth: "{\"type\":\"none\"}"@,
        variables: "[]"@,
        sort_order: sort_order,
        updated_at: now,
        created_at: now,
        team_id: None,
        cloud_id: None,
        synced_at: None,
        dirty: false,
    }
}

/// Creates a private collection under a caller-chosen local id,
/// appended after the greatest existing `sort_order`.  It succeeds
/// exactly when the id is fresh.
pub fn create_with_id(store: &mut SyncStore, local_id: &str, name: &str, now: &str) -> (r: Result<
    Collection,
    SyncError,
>)
    requires
        old(store).wf(),
        forall|i: int|
            0 <= i < old(store)@.collections.len() ==> (#[trigger] old(
                store,
            )@.collections[i].sort_order) < i32::MAX,
    ensures
        final(store).wf(),
        r is Ok <==> !has_id(old(store)@.collections, local_id@),
        r matches Ok(c) ==> {
            &&& c@ == spec_created(
                local_id@,
                name@,
                (max_sort_order(old(store)@.collections) + 1) as i32,
                now@,
            )
            &&& final(store)@ == (StoreView {
                collections: old(store)@.collections.push(c@),
                ..old(store)@
            })
        },
        r is Err ==> r == Err::<Collection, SyncError>(SyncError::StoreUnavailable)
            && final(store)@ == old(store)@,
{
    let ghost s0 = store@.collections;
    let mut m: i32 = -1;
    let mut i: usize = 0;
    proof {
        assert(s0.take(0) =~= Seq::<CollectionView>::empty());
    }
    while i < store.collections.len()
        invariant
            i <= store.collections@.len(),
            s0 == store@.collections,
            store.collections@.len() == s0.len(),
            m as int == max_sort_order(s0.take(i as int)),
            m == -1 || exists|j: int| 0 <= j < i && s0[j].sort_order == m,
            forall|k: int| 0 <= k < s0.len() ==> (#[trigger] s0[k].sort_order) < i32::MAX,
        decreases store.collections@.len() - i,
    {
        proof {
            assert(s0.take(i + 1 as int).drop_last() =~= s0.take(i as int));
            assert(s0.take(i + 1 as int).last() == s0[i as int]);
        }
        let so = store.collections[i].sort_order;
        if so > m {
            m = so;
        }
        i = i + 1;
    }
    proof {
        assert(s0.take(s0.len() as int) =~= s0);
    }
    if find_by_id(&store.collections, local_id).is_some() {
        return Err(SyncError::StoreUnavailable);
    }
    let row = Collection {
        id: local_id.to_owned(),
        name: name.to_owned(),
        description: "".to_owned(),
        default_headers: "[]".to_owned(),
        default_auth: "{\"type\":\"none\"}".to_owned(),
        variables: "[]".to_owned(),
        sort_order: m + 1,
        updated_at: now.to_owned(),
        created_at: now.to_owned(),
        team_id: None,
        cloud_id: None,
        synced_at: None,
        dirty: false,
    };
    let result = row.clone();
    let ghost vrow = row@;
    store.collections.push(row);
    proof {
        assert(vrow =~= spec_created(vrow.id, name@, (max_sort_order(s0) + 1) as i32, now@));
        lemma_views_push(old(store).collections@, store.collections@[s0.len() as int]);
        assert(store@.collections =~= s0.push(vrow));
        lemma_push_wf(s0, vrow);
        assert(store@ =~= (StoreView { collections: s0.push(vrow), ..old(store)@ }));
    }
    Ok(result)
}

/// Creates a private collection under a freshly generated local id,
/// appended after the greatest existing `sort_order`.  The only failure
/// is the drawn local id colliding with an existing row, which leaves
/// the store untouched; `create_with_id` carries the exact success law.
pub fn create(store: &mut SyncStore, name: &str, now: &str) -> (r: Result<Collection, SyncError>)
    requires
        old(store).wf(),
        forall|i: int|
            0 <= i < old(store)@.collections.len() ==> (#[trigger] old(
                store,
            )@.collections[i].sort_order) < i32::MAX,
    ensures
        final(store).wf(),
        r matches Ok(c) ==> {
            &&& !has_id(old(store)@.collections, c@.id)
            &&& c@ == spec_created(
                c@.id,
                name@,
                (max_sort_order(old(store)@.collections) + 1) as i32,
                now@,
            )
            &&& final(store)@ == (StoreView {
                collections: old(store)@.collections.push(c@),
                ..old(store)@
            })
        },
        r is Err ==> r == Err::<Collection, SyncError>(SyncError::StoreUnavailable)
            && final(store)@ == old(store)@,
{
    let local_id = new_local_id();
    create_with_id(store, local_id.as_str(), name, now)
}

/// Looks a collection up by its local id.
pub fn get_by_id(store: &SyncStore, id: &str) -> (r: Result<Collection, SyncError>)
    requires
        store.wf(),
    ensures
        match r {
            Ok(c) => has_id(store@.collections, id@) && c@ == store@.collections[id_index(
                store@.collections,
                id@,
            )],
            Err(e) => e == SyncError::NotFound && !has_id(store@.collections, id@),
        },
{
    match find_by_id(&store.collections, id) {
        Some(i) => {
            proof {
                lemma_id_index_is(store@.collections, id@, i as int);
            }
            Ok(store.collections[i].clone())
        },
        None => Err(SyncError::NotFound),
    }
}

/// The display order of collections: by `sort_order`, ties broken by
/// the creation stamp's text order.
pub open spec fn row_le(a: CollectionView, b: CollectionView) -> bool {
    ||| a.sort_order < b.sort_order
    ||| (a.sort_order == b.sort_order && lex_le(a.created_at, b.created_at))
}

pub open spec fn sorted_rows(s: Seq<CollectionView>) -> bool {
    forall|i: int, j: int| 0 <= i < j < s.len() ==> row_le(s[i], s[j])
}

proof fn lemma_row_le_total(a: CollectionView, b: CollectionView)
    ensures
        row_le(a, b) || row_le(b, a),
{
    lemma_lex_le_total(a.created_at, b.created_at);
}

proof fn lemma_row_le_trans(a: CollectionView, b: CollectionView, c: CollectionView)
    requires
        row_le(a, b),
        row_le(b, c),
    ensures
        row_le(a, c),
{
    if a.sort_order == b.sort_order && b.sort_order == c.sort_order {
        lemma_lex_le_trans(a.created_at, b.created_at, c.created_at);
    }
}

fn row_le_exec(a: &Collection, b: &Collection) -> (r: bool)
    ensures
        r == row_le(a@, b@),
{
    if a.sort_order < b.sort_order {
        true
    } else if a.sort_order > b.sort_order {
        false
    } else {
        str_le(a.created_at.as_str(), b.created_at.as_str())
    }
}

/// The position at which a row joins a sorted list: past everything at
/// most equal to it.
fn insert_pos(out: &Vec<Collection>, x: &Collection) -> (p: usize)
    ensures
        p <= out@.len(),
        forall|k: int| 0 <= k < p ==> row_le(views(out@)[k], x@),
        p < out@.len() ==> !row_le(views(out@)[p as int], x@),
{
    let mut j: usize = 0;
    while j < out.len()
        invariant
            j <= out@.len(),
            forall|k: int| 0 <= k < j ==> row_le(views(out@)[k], x@),
        decreases out@.len() - j,
    {
        if !row_le_exec(&out[j], x) {
            return j;
        }
        j = j + 1;
    }
    j
}

/// Sorts rows into display order: the same rows, ordered by
/// `sort_order` with ties in creation-stamp order.
fn sort_rows(rows: Vec<Collection>) -> (r: Vec<Collection>)
    ensures
        views(r@).to_multiset() == views(rows@).to_multiset(),
        sorted_rows(views(r@)),
{
    let ghost s0 = views(rows@);
    let mut out: Vec<Collection> = Vec::new();
    let mut i: usize = 0;
    proof {
        assert(views(out@) =~= s0.take(0));
    }
    while i < rows.len()
        invariant
            i <= rows@.len(),
            s0 == views(rows@),
            rows@.len() == s0.len(),
            views(out@).to_multiset() == s0.take(i as int).to_multiset(),
            sorted_rows(views(out@)),
        decreases rows@.len() - i,
    {
        let x = rows[i].clone();
        let ghost xv = x@;
        let p = insert_pos(&out, &x);
        let ghost prev = out@;
        let ghost vout = views(prev);
        out.insert(p, x);
        proof {
            lemma_views_insert(prev, p as int, out@[p as int]);
            assert(views(out@) =~= vout.insert(p as int, xv));
            vstd::seq_lib::to_multiset_insert(vout, p as int, xv);
            assert(s0.take(i + 1 as int) =~= s0.take(i as int).push(s0[i as int]));
            vstd::seq_lib::to_multiset_build(s0.take(i as int), s0[i as int]);
            let n = views(out@);
            assert forall|a: int, b: int| 0 <= a < b < n.len() implies row_le(n[a], n[b]) by {
                if b < p {
                    assert(row_le(vout[a], vout[b]));
                } else if a > p {
                    assert(row_le(vout[a - 1], vout[b - 1]));
                } else if a < p && b == p {
                    assert(row_le(vout[a], xv));
                } else if a == p && b > p {
                    assert(!row_le(vout[p as int], xv));
                    lemma_row_le_total(vout[p as int], xv);
                    if b - 1 > p {
                        assert(row_le(vout[p as int], vout[b - 1]));
                        lemma_row_le_trans(xv, vout[p as int], vout[b - 1]);
                    }
                } else {
                    assert(a < p && b > p);
                    assert(row_le(vout[a], vout[b - 1]));
                }
            }
        }
        i = i + 1;
    }
    proof {
        assert(s0.take(s0.len() as int) =~= s0);
    }
    out
}

/// All collections, in display order: by `sort_order`, ties in
/// creation-stamp order; the result holds exactly the store's rows.
pub fn get_all(store: &SyncStore) -> (r: Vec<Collection>)
    ensures
        views(r@).to_multiset() == store@.collections.to_multiset(),
        sorted_rows(views(r@)),
{
    let ghost s0 = store@.collections;
    let mut out: Vec<Collection> = Vec::new();
    let mut i: usize = 0;
    proof {
        assert(views(out@) =~= s0.take(0));
    }
    while i < store.collections.len()
        invariant
            i <= store.collections@.len(),
            s0 == store@.collections,
            store.collections@.len() == s0.len(),
            views(out@) == s0.take(i as int),
        decreases store.collections@.len() - i,
    {
        let ghost vout = out@;
        out.push(store.collections[i].clone());
        proof {
            lemma_views_push(vout, out@[vout.len() as int]);
            assert(views(out@) =~= s0.take(i + 1 as int));
        }
        i = i + 1;
    }
    proof {
        assert(s0.take(s0.len() as int) =~= s0);
    }
    sort_rows(out)
}

/// A dirty collection awaits a push: flagged and anchored to a team.
pub open spec fn dirty_pred() -> spec_fn(CollectionView) -> bool {
    |c: CollectionView| c.dirty && c.team_id is Some
}

/// The collections that need pushing: dirty, with a team anchor.
pub fn get_dirty(store: &SyncStore) -> (r: Vec<Collection>)
    ensures
        views(r@) == keep(store@.collections, dirty_pred()),
{
    let ghost s0 = store@.collections;
    let mut out: Vec<Collection> = Vec::new();
    let mut i: usize = 0;
    proof {
        assert(views(out@) =~= keep(s0.take(0), dirty_pred()));
    }
    while i < store.collections.len()
        invariant
            i <= store.collections@.len(),
            s0 == store@.collections,
            store.collections@.len() == s0.len(),
            views(out@) == keep(s0.take(i as int), dirty_pred()),
        decreases store.collections@.len() - i,
    {
        proof {
            assert(s0.take(i + 1 as int).drop_last() =~= s0.take(i as int));
            assert(s0.take(i + 1 as int).last() == s0[i as int]);
        }
        let c = &store.collections[i];
        if c.dirty && c.team_id.is_some() {
            let ghost vout = out@;
            out.push(c.clone());
            proof {
                lemma_views_push(vout, out@[vout.len() as int]);
                assert(views(out@) =~= keep(s0.take(i + 1 as int), dirty_pred()));
            }
        }
        i = i + 1;
    }
    proof {
        assert(s0.take(s0.len() as int) =~= s0);
    }
    out
}

/// Membership of a collection in the given team.
pub open spec fn team_pred(team: Seq<char>) -> spec_fn(CollectionView) -> bool {
    |c: CollectionView| c.team_id == Some(team)
}

/// The collections shared with the given team, in display order: by
/// `sort_order`, ties in creation-stamp order.
pub fn get_by_team(store: &SyncStore, team_id: &str) -> (r: Vec<Collection>)
    ensures
        views(r@).to_multiset() == keep(store@.collections, team_pred(team_id@)).to_multiset(),
        sorted_rows(views(r@)),
{
    let ghost s0 = store@.collections;
    let mut out: Vec<Collection> = Vec::new();
    let mut i: usize = 0;
    proof {
        assert(views(out@) =~= keep(s0.take(0), team_pred(team_id@)));
    }
    while i < store.collections.len()
        invariant
            i <= store.collections@.len(),
            s0 == store@.collections,
            store.collections@.len() == s0.len(),
            views(out@) == keep(s0.take(i as int), team_pred(team_id@)),
        decreases store.collections@.len() - i,
    {
        proof {
            assert(s0.take(i + 1 as int).drop_last() =~= s0.take(i as int));
            assert(s0.take(i + 1 as int).last() == s0[i as int]);
        }
        let c = &store.collections[i];
        if opt_is(&c.team_id, team_id) {
            let ghost vout = out@;
            out.push(c.clone());
            proof {
                lemma_views_push(vout, out@[vout.len() as int]);
                assert(views(out@) =~= keep(s0.take(i + 1 as int), team_pred(team_id@)));
            }
        }
        i = i + 1;
    }
    proof {
        assert(s0.take(s0.len() as int) =~= s0);
    }
    sort_rows(out)
}

/// A row bound to its remote identity: anchored, stamped, clean.
pub open spec fn spec_bound(
    c: CollectionView,
    cloud_id: Seq<char>,
    team_id: Seq<char>,
    now: Seq<char>,
) -> CollectionView {
    CollectionView {
        team_id: Some(team_id),
        cloud_id: Some(cloud_id),
        synced_at: Some(now),
        dirty: false,
        ..c
    }
}

/// Whether binding `id` to `cloud_id` would conflict: the row is
/// already mapped to a different remote id, or another row is already
/// mapped to this one.
pub open spec fn bind_conflict(s: Seq<CollectionView>, i: int, cloud_id: Seq<char>) -> bool {
    ||| s[i].cloud_id is Some && s[i].cloud_id != Some(cloud_id)
    ||| exists|j: int| 0 <= j < s.len() && j != i && s[j].cloud_id == Some(cloud_id)
}

/// Binds a local collection to its remote identity after a successful
/// push: records `cloud_id` and the team, stamps `synced_at = now` and
/// clears `dirty`, all in one step.  Binding the same pair again is
/// harmless; binding either id to a different counterpart is refused
/// with `ConflictingIdentity` and changes nothing.
pub fn mark_synced(
    store: &mut SyncStore,
    id: &str,
    cloud_id: &str,
    team_id: &str,
    now: &str,
) -> (r: Result<(), SyncError>)
    requires
        old(store).wf(),
    ensures
        final(store).wf(),
        ({
            let s0 = old(store)@.collections;
            if !has_id(s0, id@) {
                r == Err::<(), SyncError>(SyncError::NotFound) && final(store)@ == old(store)@
            } else if bind_conflict(s0, id_index(s0, id@), cloud_id@) {
                r == Err::<(), SyncError>(SyncError::ConflictingIdentity) && final(store)@ == old(
                    store,
                )@
            } else {
                r == Ok::<(), SyncError>(()) && final(store)@ == (StoreView {
                    collections: s0.update(
                        id_index(s0, id@),
                        spec_bound(s0[id_index(s0, id@)], cloud_id@, team_id@, now@),
                    ),
                    ..old(store)@
                })
            }
        }),
{
    let ghost s0 = store@.collections;
    let i = match find_by_id(&store.collections, id) {
        Some(i) => i,
        None => {
            return Err(SyncError::NotFound);
        },
    };
    proof {
        lemma_id_index_is(s0, id@, i as int);
    }
    match &store.collections[i].cloud_id {
        Some(existing) => {
            if !str_eq(existing.as_str(), cloud_id) {
                return Err(SyncError::ConflictingIdentity);
            }
        },
        None => {},
    }
    match find_by_cloud(&store.collections, cloud_id) {
        Some(k) => {
            if k != i {
                proof {
                    assert(bind_conflict(s0, i as int, cloud_id@));
                }
                return Err(SyncError::ConflictingIdentity);
            }
        },
        None => {},
    }
    proof {
        assert(!bind_conflict(s0, i as int, cloud_id@)) by {
            if s0[i as int].cloud_id is Some {
                assert(s0[i as int].cloud_id == Some(cloud_id@));
                if exists|j: int| 0 <= j < s0.len() && j != i && s0[j].cloud_id == Some(cloud_id@) {
                    let j = choose|j: int|
                        0 <= j < s0.len() && j != i && s0[j].cloud_id == Some(cloud_id@);
                    lemma_cloud_index_is(s0, cloud_id@, j);
                    lemma_cloud_index_is(s0, cloud_id@, i as int);
                }
            } else {
                if exists|j: int| 0 <= j < s0.len() && j != i && s0[j].cloud_id == Some(cloud_id@) {
                    assert(has_cloud(s0, cloud_id@));
                }
            }
        }
    }
    let prev = &store.collections[i];
    let row = Collection {
        id: prev.id.clone(),
        name: prev.name.clone(),
        description: prev.description.clone(),
        default_headers: prev.default_headers.clone(),
        default_auth: prev.default_auth.clone(),
        variables: prev.variables.clone(),
        sort_order: prev.sort_order,
        updated_at: prev.updated_at.clone(),
        created_at: prev.created_at.clone(),
        team_id: Some(team_id.to_owned()),
        cloud_id: Some(cloud_id.to_owned()),
        synced_at: Some(now.to_owned()),
        dirty: false,
    };
    let ghost vrow = row@;
    store.collections[i] = row;
    proof {
        assert(vrow =~= spec_bound(s0[i as int], cloud_id@, team_id@, now@));
        lemma_views_update(old(store).collections@, i as int, store.collections@[i as int]);
        assert(store@.collections =~= s0.update(i as int, vrow));
        assert(vrow.cloud_id == s0[i as int].cloud_id || (forall|j: int|
            0 <= j < s0.len() && j != i ==> s0[j].cloud_id != vrow.cloud_id)) by {
            if s0[i as int].cloud_id is None {
                assert(!has_cloud(s0, cloud_id@));
                assert forall|j: int|
                    0 <= j < s0.len() && j != i implies s0[j].cloud_id != vrow.cloud_id by {
                    if s0[j].cloud_id == Some(cloud_id@) {
                        assert(has_cloud(s0, cloud_id@));
                    }
                }
            }
        }
        lemma_update_wf(s0, i as int, vrow);
        assert(store@ =~= (StoreView {
            collections: s0.update(i as int, spec_bound(s0[i as int], cloud_id@, team_id@, now@)),
            ..old(store)@
        }));
    }
    Ok(())
}

/// A row flagged for a future push, but only if it is anchored.
pub open spec fn spec_marked(c: CollectionView) -> CollectionView {
    CollectionView { dirty: if anchored(c) { true } else { c.dirty }, ..c }
}

/// Flags a collection as needing a push after a local mutation.  A
/// private collection (no team) is left untouched: mutating it never
/// produces sync traffic.  An unknown id is a silent no-op, as in a
/// keyed update that matches no row.
pub fn mark_dirty(store: &mut SyncStore, id: &str)
    requires
        old(store).wf(),
    ensures
        final(store).wf(),
        ({
            let s0 = old(store)@.collections;
            if has_id(s0, id@) {
                final(store)@ == (StoreView {
                    collections: s0.update(id_index(s0, id@), spec_marked(s0[id_index(s0, id@)])),
                    ..old(store)@
                })
            } else {
                final(store)@ == old(store)@
            }
        }),
{
    let ghost s0 = store@.collections;
    let i = match find_by_id(&store.collections, id) {
        Some(i) => i,
        None => {
            return ;
        },
    };
    proof {
        lemma_id_index_is(s0, id@, i as int);
    }
    let anchored_row = store.collections[i].team_id.is_some();
    if anchored_row {
        store.collections[i].dirty = true;
    }
    proof {
        lemma_views_update(old(store).collections@, i as int, store.collections@[i as int]);
        assert(store@.collections =~= s0.update(i as int, spec_marked(s0[i as int])));
        lemma_update_wf(s0, i as int, spec_marked(s0[i as int]));
        assert(store@ =~= (StoreView {
            collections: s0.update(i as int, spec_marked(s0[i as int])),
            ..old(store)@
        }));
    }
}

/// A row after a partial update: each `Some` field of the update is
/// written, `updated_at` is stamped, and the row is flagged dirty
/// exactly when it carries a team anchor.
pub open spec fn spec_updated(
    c: CollectionView,
    u: UpdateCollection,
    now: Seq<char>,
) -> CollectionView {
    CollectionView {
        name: match u.name {
            Some(x) => x@,
            None => c.name,
        },
        description: match u.description {
            Some(x) => x@,
            None => c.description,
        },
        default_headers: match u.default_headers {
            Some(x) => x@,
            None => c.default_headers,
        },
        default_auth: match u.default_auth {
            Some(x) => x@,
            None => c.default_auth,
        },
        variables: match u.variables {
            Some(x) => x@,
            None => c.variables,
        },
        updated_at: now,
        dirty: if anchored(c) {
            true
        } else {
            c.dirty
        },
        ..c
    }
}

/// Applies a partial update to a collection.  A no-op update (every
/// field `None`) changes nothing; otherwise the `Some` fields are
/// written and the row is dirtied exactly when it is shared with a
/// team.  An unknown id is a silent no-op.
pub fn update(store: &mut SyncStore, id: &str, data: &UpdateCollection, now: &str)
    requires
        old(store).wf(),
    ensures
        final(store).wf(),
        ({
            let s0 = old(store)@.collections;
            if has_id(s0, id@) && !data.spec_is_noop() {
                final(store)@ == (StoreView {
                    collections: s0.update(
                        id_index(s0, id@),
                        spec_updated(s0[id_index(s0, id@)], *data, now@),
                    ),
                    ..old(store)@
                })
            } else {
                final(store)@ == old(store)@
            }
        }),
{
    if data.is_noop() {
        return ;
    }
    let ghost s0 = store@.collections;
    let i = match find_by_id(&store.collections, id) {
        Some(i) => i,
        None => {
            return ;
        },
    };
    proof {
        lemma_id_index_is(s0, id@, i as int);
    }
    let prev = &store.collections[i];
    let row = Collection {
        id: prev.id.clone(),
        name: match &data.name {
            Some(x) => x.clone(),
            None => prev.name.clone(),
        },
        description: match &data.description {
            Some(x) => x.clone(),
            None => prev.description.clone(),
        },
        default_headers: match &data.default_headers {
            Some(x) => x.clone(),
            None => prev.default_headers.clone(),
        },
        default_auth: match &data.default_auth {
            Some(x) => x.clone(),
            None => prev.default_auth.clone(),
        },
        variables: match &data.variables {
            Some(x) => x.clone(),
            None => prev.variables.clone(),
        },
        sort_order: prev.sort_order,
        updated_at: now.to_owned(),
        created_at: prev.created_at.clone(),
        team_id: clone_opt(&prev.team_id),
        cloud_id: clone_opt(&prev.cloud_id),
        synced_at: clone_opt(&prev.synced_at),
        dirty: if prev.team_id.is_some() {
            true
        } else {
            prev.dirty
        },
    };
    let ghost vrow = row@;
    store.collections[i] = row;
    proof {
        assert(vrow =~= spec_updated(s0[i as int], *data, now@));
        lemma_views_update(old(store).collections@, i as int, store.collections@[i as int]);
        assert(store@.collections =~= s0.update(i as int, vrow));
        lemma_update_wf(s0, i as int, vrow);
        assert(store@ =~= (StoreView {
            collections: s0.update(i as int, vrow),
            ..old(store)@
        }));
    }
}

/// Deletes a collection by its local id, cascading as the durable
/// schema does: every folder and every request of that collection goes
/// with it.  An unknown id is a silent no-op.  This is the plain local
/// delete: the guarded path for synced rows is the orchestrator's to
/// enforce.
pub fn delete(store: &mut SyncStore, id: &str)
    requires
        old(store).wf(),
    ensures
        final(store).wf(),
        ({
            let s0 = old(store)@.collections;
            if has_id(s0, id@) {
                final(store)@ == (StoreView {
                    collections: s0.remove(id_index(s0, id@)),
                    folders: keep(old(store)@.folders, crate::folders::other_collection_pred(id@)),
                    requests: keep(
                        old(store)@.requests,
                        crate::requests::other_collection_pred(id@),
                    ),
                    ..old(store)@
                })
            } else {
                final(store)@ == old(store)@
            }
        }),
{
    let ghost s0 = store@.collections;
    let i = match find_by_id(&store.collections, id) {
        Some(i) => i,
        None => {
            return ;
        },
    };
    proof {
        lemma_id_index_is(s0, id@, i as int);
    }
    store.collections.remove(i);
    proof {
        lemma_views_remove(old(store).collections@, i as int);
        assert(store@.collections =~= s0.remove(i as int));
        lemma_remove_pairwise(s0, i as int, |a: CollectionView, b: CollectionView| a.id != b.id);
        lemma_remove_pairwise(
            s0,
            i as int,
            |a: CollectionView, b: CollectionView| a.cloud_id is Some ==> a.cloud_id != b.cloud_id,
        );
        assert forall|k: int|
            0 <= k < s0.remove(i as int).len() && s0.remove(i as int)[k].dirty implies anchored(
            s0.remove(i as int)[k],
        ) by {
            if k < i {
                assert(s0.remove(i as int)[k] == s0[k]);
            } else {
                assert(s0.remove(i as int)[k] == s0[k + 1]);
            }
        }
        assert(unique_ids(s0.remove(i as int)));
        assert(unique_cloud_ids(s0.remove(i as int)));
    }
    let ghost f0 = store@.folders;
    let ghost fpred = crate::folders::other_collection_pred(id@);
    let mut kept_folders: Vec<Folder> = Vec::new();
    let mut fi: usize = 0;
    proof {
        assert(views(kept_folders@) =~= keep(f0.take(0), fpred));
    }
    while fi < store.folders.len()
        invariant
            fi <= store.folders@.len(),
            f0 == store@.folders,
            store.folders@.len() == f0.len(),
            views(kept_folders@) == keep(f0.take(fi as int), fpred),
            fpred == crate::folders::other_collection_pred(id@),
        decreases store.folders@.len() - fi,
    {
        proof {
            assert(f0.take(fi + 1 as int).drop_last() =~= f0.take(fi as int));
            assert(f0.take(fi + 1 as int).last() == f0[fi as int]);
        }
        let f = &store.folders[fi];
        if !str_eq(f.collection_id.as_str(), id) {
            let ghost vout = kept_folders@;
            kept_folders.push(f.clone());
            proof {
                lemma_views_push(vout, kept_folders@[vout.len() as int]);
                assert(views(kept_folders@) =~= keep(f0.take(fi + 1 as int), fpred));
            }
        }
        fi = fi + 1;
    }
    proof {
        assert(f0.take(f0.len() as int) =~= f0);
    }
    store.folders = kept_folders;
    proof {
        let rel_fid = |a: FolderView, b: FolderView| a.id != b.id;
        let rel_fcloud = |a: FolderView, b: FolderView| a.cloud_id is Some ==> a.cloud_id
            != b.cloud_id;
        lemma_keep_pairwise(f0, fpred, rel_fid);
        lemma_keep_pairwise(f0, fpred, rel_fcloud);
        lemma_keep_membership(f0, fpred);
        assert forall|a: int, b: int|
            0 <= a < b < store@.folders.len() implies store@.folders[a].id
            != store@.folders[b].id by {
            assert(rel_fid(keep(f0, fpred)[a], keep(f0, fpred)[b]));
        }
        assert forall|a: int, b: int|
            0 <= a < b < store@.folders.len() && store@.folders[a].cloud_id is Some implies store@
                .folders[a].cloud_id != store@.folders[b].cloud_id by {
            assert(rel_fcloud(keep(f0, fpred)[a], keep(f0, fpred)[b]));
        }
        assert forall|k: int|
            0 <= k < store@.folders.len() && store@.folders[k].dirty
            implies crate::folders::anchored(store@.folders[k]) by {
            let j = choose|j: int| 0 <= j < f0.len() && keep(f0, fpred)[k] == f0[j];
            assert(f0[j].dirty ==> crate::folders::anchored(f0[j]));
        }
    }
    let ghost r0 = store@.requests;
    let ghost rpred = crate::requests::other_collection_pred(id@);
    let mut kept_requests: Vec<SavedRequest> = Vec::new();
    let mut ri: usize = 0;
    proof {
        assert(views(kept_requests@) =~= keep(r0.take(0), rpred));
    }
    while ri < store.requests.len()
        invariant
            ri <= store.requests@.len(),
            r0 == store@.requests,
            store.requests@.len() == r0.len(),
            views(kept_requests@) == keep(r0.take(ri as int), rpred),
            rpred == crate::requests::other_collection_pred(id@),
        decreases store.requests@.len() - ri,
    {
        proof {
            assert(r0.take(ri + 1 as int).drop_last() =~= r0.take(ri as int));
            assert(r0.take(ri + 1 as int).last() == r0[ri as int]);
        }
        let rq = &store.requests[ri];
        if !str_eq(rq.collection_id.as_str(), id) {
            let ghost vout = kept_requests@;
            kept_requests.push(rq.clone());
            proof {
                lemma_views_push(vout, kept_requests@[vout.len() as int]);
                assert(views(kept_requests@) =~= keep(r0.take(ri + 1 as int), rpred));
            }
        }
        ri = ri + 1;
    }
    proof {
        assert(r0.take(r0.len() as int) =~= r0);
    }
    store.requests = kept_requests;
    proof {
        let rel_rid = |a: RequestView, b: RequestView| a.id != b.id;
        let rel_rcloud = |a: RequestView, b: RequestView| a.cloud_id is Some ==> a.cloud_id
            != b.cloud_id;
        lemma_keep_pairwise(r0, rpred, rel_rid);
        lemma_keep_pairwise(r0, rpred, rel_rcloud);
        lemma_keep_membership(r0, rpred);
        assert forall|a: int, b: int|
            0 <= a < b < store@.requests.len() implies store@.requests[a].id
            != store@.requests[b].id by {
            assert(rel_rid(keep(r0, rpred)[a], keep(r0, rpred)[b]));
        }
        assert forall|a: int, b: int|
            0 <= a < b < store@.requests.len() && store@.requests[a].cloud_id is Some
            implies store@.requests[a].cloud_id != store@.requests[b].cloud_id by {
            assert(rel_rcloud(keep(r0, rpred)[a], keep(r0, rpred)[b]));
        }
        assert forall|k: int|
            0 <= k < store@.requests.len() && store@.requests[k].dirty
            implies crate::requests::anchored(store@.requests[k]) by {
            let j = choose|j: int| 0 <= j < r0.len() && keep(r0, rpred)[k] == r0[j];
            assert(r0[j].dirty ==> crate::requests::anchored(r0[j]));
        }
        assert(store@ =~= (StoreView {
            collections: s0.remove(i as int),
            folders: keep(f0, fpred),
            requests: keep(r0, rpred),
            ..old(store)@
        }));
    }
}

/// The first row with the given local id, if any.
fn find_by_id(v: &Vec<Collection>, id: &str) -> (r: Option<usize>)
    ensures
        match r {
            Some(i) => i < v@.len() && views(v@)[i as int].id == id@,
            None => !has_id(views(v@), id@),
        },
{
    let mut i: usize = 0;
    while i < v.len()
        invariant
            i <= v@.len(),
            forall|j: int| 0 <= j < i ==> views(v@)[j].id != id@,
        decreases v@.len() - i,
    {
        if str_eq(v[i].id.as_str(), id) {
            return Some(i);
        }
        i = i + 1;
    }
    None
}

} // verus!
