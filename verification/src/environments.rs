use vstd::prelude::*;
use crate::error::SyncError;
use crate::ids::new_local_id;
use crate::store::lemma_remove_pairwise;
use crate::store::lemma_views_insert;
use crate::store::lemma_views_push;
use crate::store::lemma_views_remove;
use crate::store::lemma_views_update;
use crate::store::views;
use crate::store::StoreView;
use crate::store::SyncStore;
use crate::strutil::lemma_lex_le_total;
use crate::strutil::lemma_lex_le_trans;
use crate::strutil::lex_le;
use crate::strutil::str_eq;
use crate::strutil::str_le;

verus! {

/// A set of variables for request substitution.  Environments are
/// purely local: they carry no sync anchor and never become dirty.
#[derive(Debug)]
pub struct Environment {
    pub id: String,
    pub name: String,
    pub variables: String,
    pub is_global: bool,
    pub sort_order: i32,
    pub updated_at: String,
    pub created_at: String,
}

#[verifier::ext_equal]
pub ghost struct EnvironmentView {
    pub id: Seq<char>,
    pub name: Seq<char>,
    pub variables: Seq<char>,
    pub is_global: bool,
    pub sort_order: i32,
    pub updated_at: Seq<char>,
    pub created_at: Seq<char>,
}

impl View for Environment {
    type V = EnvironmentView;

    open spec fn view(&self) -> EnvironmentView {
        EnvironmentView {
            id: self.id@,
            name: self.name@,
            variables: self.variables@,
            is_global: self.is_global,
            sort_order: self.sort_order,
            updated_at: self.updated_at@,
            created_at: self.created_at@,
        }
    }
}

impl Clone for Environment {
    fn clone(&self) -> (res: Self)
        ensures
            res@ == self@,
    {
        Environment {
            id: self.id.clone(),
            name: self.name.clone(),
            variables: self.variables.clone(),
            is_global: self.is_global,
            sort_order: self.sort_order,
            updated_at: self.updated_at.clone(),
            created_at: self.created_at.clone(),
        }
    }
}

pub open spec fn unique_ids(s: Seq<EnvironmentView>) -> bool {
    forall|i: int, j: int| 0 <= i < j < s.len() ==> s[i].id != s[j].id
}

pub open spec fn has_id(s: Seq<EnvironmentView>, id: Seq<char>) -> bool {
    exists|i: int| 0 <= i < s.len() && s[i].id == id
}

pub open spec fn id_index(s: Seq<EnvironmentView>, id: Seq<char>) -> int {
    choose|i: int| 0 <= i < s.len() && s[i].id == id
}

/// A partial update: a field is overwritten exactly when it is `Some`.
#[derive(Debug)]
pub struct UpdateEnvironment {
    pub name: Option<String>,
    pub variables: Option<String>,
}

/// Failures of the environment store, which sits outside the sync
/// machinery: environments carry no sync state.
#[derive(Clone, Copy, Debug, PartialEq, Eq, Structural)]
pub enum EnvironmentError {
    /// No environment carries the given id.
    NotFound,
    /// The global environment cannot be deleted.
    GlobalProtected,
}

impl EnvironmentError {
    /// A human-readable description of the failure.
    pub fn message(&self) -> (r: &'static str)
        ensures
            r@ =~= self.spec_message(),
    {
        match self {
            EnvironmentError::NotFound => "environment not found",
            EnvironmentError::GlobalProtected => "cannot delete the global environment",
        }
    }

    pub open spec fn spec_message(self) -> Seq<char> {
        match self {
            EnvironmentError::NotFound => "environment not found"@,
            EnvironmentError::GlobalProtected => "cannot delete the global environment"@,
        }
    }
}

/// With unique local ids, any row carrying `id` is the row `id_index`
/// names.
proof fn lemma_id_index_is(s: Seq<EnvironmentView>, id: Seq<char>, i: int)
    requires
        unique_ids(s),
        0 <= i < s.len(),
        s[i].id == id,
    ensures
        has_id(s, id),
        id_index(s, id) == i,
{
    assert(has_id(s, id));
    let k = id_index(s, id);
    if k < i {
        assert(s[k].id != s[i].id);
    } else if i < k {
        assert(s[i].id != s[k].id);
    }
}

/// The first row with the given local id, if any.
fn find_by_id(v: &Vec<Environment>, id: &str) -> (r: Option<usize>)
    ensures
        match r {
            Some(i) => i < v@.len() && views(v@)[i as int].id == id@,
            None => !has_id(views(v@), id@),
        },
{
    let mut i: usize = 0;
    while i < v.len()
        invariant
            i <= v@.len(),
            forall|j: int| 0 <= j < i ==> views(v@)[j].id != id@,
        decreases v@.len() - i,
    {
        if str_eq(v[i].id.as_str(), id) {
            return Some(i);
        }
        i = i + 1;
    }
    None
}

/// The greatest `sort_order` among the rows, or -1 of none.
pub open spec fn max_sort_order(s: Seq<EnvironmentView>) -> int
    decreases s.len(),
{
    if s.len() == 0 {
        -1
    } else {
        let rest = max_sort_order(s.drop_last());
        if s.last().sort_order > rest {
            s.last().sort_order as int
        } else {
            rest
        }
    }
}

/// A row as `create` builds it: an empty variable list, not global.
pub open spec fn spec_created(
    id: Seq<char>,
    name: Seq<char>,
    sort_order: i32,
    now: Seq<char>,
) -> EnvironmentView {
    EnvironmentView {
        id: id,
        name: name,
        variables: "[]"@,
        is_global: false,
        sort_order: sort_order,
        updated_at: now,
        created_at: now,
    }
}

/// Creates an environment under a caller-chosen local id, appended
/// after the greatest existing `sort_order`.  It succeeds exactly when
/// the id is fresh.
pub fn create_with_id(store: &mut SyncStore, local_id: &str, name: &str, now: &str) -> (r: Result<
    Environment,
    SyncError,
>)
    requires
        old(store).wf(),
        forall|i: int|
            0 <= i < old(store)@.environments.len() ==> (#[trigger] old(
                store,
            )@.environments[i].sort_order) < i32::MAX,
    ensures
        final(store).wf(),
        r is Ok <==> !has_id(old(store)@.environments, local_id@),
        r matches Ok(c) ==> {
            &&& c@ == spec_created(
                local_id@,
                name@,
                (max_sort_order(old(store)@.environments) + 1) as i32,
                now@,
            )
            &&& final(store)@ == (StoreView {
                environments: old(store)@.environments.push(c@),
                ..old(store)@
            })
        },
        r is Err ==> r == Err::<Environment, SyncError>(SyncError::StoreUnavailable)
            && final(store)@ == old(store)@,
{
    let ghost s0 = store@.environments;
    let mut m: i32 = -1;
    let mut i: usize = 0;
    proof {
        assert(s0.take(0) =~= Seq::<EnvironmentView>::empty());
    }
    while i < store.environments.len()
        invariant
            i <= store.environments@.len(),
            s0 == store@.environments,
            store.environments@.len() == s0.len(),
            m as int == max_sort_order(s0.take(i as int)),
            m == -1 || exists|j: int| 0 <= j < i && s0[j].sort_order == m,
            forall|k: int| 0 <= k < s0.len() ==> (#[trigger] s0[k].sort_order) < i32::MAX,
        decreases store.environments@.len() - i,
    {
        proof {
            assert(s0.take(i + 1 as int).drop_last() =~= s0.take(i as int));
            assert(s0.take(i + 1 as int).last() == s0[i as int]);
        }
        let so = store.environments[i].sort_order;
        if so > m {
            m = so;
        }
        i = i + 1;
    }
    proof {
        assert(s0.take(s0.len() as int) =~= s0);
    }
    if find_by_id(&store.environments, local_id).is_some() {
        return Err(SyncError::StoreUnavailable);
    }
    let row = Environment {
        id: local_id.to_owned(),
        name: name.to_owned(),
        variables: "[]".to_owned(),
        is_global: false,
        sort_order: m + 1,
        updated_at: now.to_owned(),
        created_at: now.to_owned(),
    };
    let result = row.clone();
    let ghost vrow = row@;
    store.environments.push(row);
    proof {
        assert(vrow =~= spec_created(vrow.id, name@, (max_sort_order(s0) + 1) as i32, now@));
        lemma_views_push(old(store).environments@, store.environments@[s0.len() as int]);
        assert(store@.environments =~= s0.push(vrow));
        assert forall|a: int, b: int|
            0 <= a < b < s0.push(vrow).len() implies s0.push(vrow)[a].id != s0.push(vrow)[b].id by {
            if b == s0.len() {
                assert(!(s0[a].id == vrow.id));
            }
        }
        assert(store@ =~= (StoreView { environments: s0.push(vrow), ..old(store)@ }));
    }
    Ok(result)
}

/// Creates an environment under a freshly generated local id, appended
/// after the greatest existing `sort_order`.  The only failure is the
/// drawn local id colliding with an existing row, which leaves the
/// store untouched; `create_with_id` carries the exact success law.
pub fn create(store: &mut SyncStore, name: &str, now: &str) -> (r: Result<Environment, SyncError>)
    requires
        old(store).wf(),
        forall|i: int|
            0 <= i < old(store)@.environments.len() ==> (#[trigger] old(
                store,
            )@.environments[i].sort_order) < i32::MAX,
    ensures
        final(store).wf(),
        r matches Ok(c) ==> {
            &&& !has_id(old(store)@.environments, c@.id)
            &&& c@ == spec_created(
                c@.id,
                name@,
                (max_sort_order(old(store)@.environments) + 1) as i32,
                now@,
            )
            &&& final(store)@ == (StoreView {
                environments: old(store)@.environments.push(c@),
                ..old(store)@
            })
        },
        r is Err ==> r == Err::<Environment, SyncError>(SyncError::StoreUnavailable)
            && final(store)@ == old(store)@,
{
    let local_id = new_local_id();
    create_with_id(store, local_id.as_str(), name, now)
}

/// Looks an environment up by its local id.
pub fn get_by_id(store: &SyncStore, id: &str) -> (r: Result<Environment, SyncError>)
    requires
        store.wf(),
    ensures
        match r {
            Ok(c) => has_id(store@.environments, id@) && c@ == store@.environments[id_index(
                store@.environments,
                id@,
            )],
            Err(e) => e == SyncError::NotFound && !has_id(store@.environments, id@),
        },
{
    match find_by_id(&store.environments, id) {
        Some(i) => {
            proof {
                lemma_id_index_is(store@.environments, id@, i as int);
            }
            Ok(store.environments[i].clone())
        },
        None => Err(SyncError::NotFound),
    }
}

/// The display order of environments: by `sort_order`, ties broken by the
/// creation stamp's text order.
pub open spec fn row_le(a: EnvironmentView, b: EnvironmentView) -> bool {
    ||| a.sort_order < b.sort_order
    ||| (a.sort_order == b.sort_order && lex_le(a.created_at, b.created_at))
}

pub open spec fn sorted_rows(s: Seq<EnvironmentView>) -> bool {
    forall|i: int, j: int| 0 <= i < j < s.len() ==> row_le(s[i], s[j])
}

proof fn lemma_row_le_total(a: EnvironmentView, b: EnvironmentView)
    ensures
        row_le(a, b) || row_le(b, a),
{
    lemma_lex_le_total(a.created_at, b.created_at);
}

proof fn lemma_row_le_trans(a: EnvironmentView, b: EnvironmentView, c: EnvironmentView)
    requires
        row_le(a, b),
        row_le(b, c),
    ensures
        row_le(a, c),
{
    if a.sort_order == b.sort_order && b.sort_order == c.sort_order {
        lemma_lex_le_trans(a.created_at, b.created_at, c.created_at);
    }
}

fn row_le_exec(a: &Environment, b: &Environment) -> (r: bool)
    ensures
        r == row_le(a@, b@),
{
    if a.sort_order < b.sort_order {
        true
    } else if a.sort_order > b.sort_order {
        false
    } else {
        str_le(a.created_at.as_str(), b.created_at.as_str())
    }
}

/// The position at which a row joins a sorted list: past everything at
/// most equal to it.
fn insert_pos(out: &Vec<Environment>, x: &Environment) -> (p: usize)
    ensures
        p <= out@.len(),
        forall|k: int| 0 <= k < p ==> row_le(views(out@)[k], x@),
        p < out@.len() ==> !row_le(views(out@)[p as int], x@),
{
    let mut j: usize = 0;
    while j < out.len()
        invariant
            j <= out@.len(),
            forall|k: int| 0 <= k < j ==> row_le(views(out@)[k], x@),
        decreases out@.len() - j,
    {
        if !row_le_exec(&out[j], x) {
            return j;
        }
        j = j + 1;
    }
    j
}

/// Sorts rows into display order: the same rows, ordered by
/// `sort_order` with ties in creation-stamp order.
fn sort_rows(rows: Vec<Environment>) -> (r: Vec<Environment>)
    ensures
        views(r@).to_multiset() == views(rows@).to_multiset(),
        sorted_rows(views(r@)),
{
    let ghost s0 = views(rows@);
    let mut out: Vec<Environment> = Vec::new();
    let mut i: usize = 0;
    proof {
        assert(views(out@) =~= s0.take(0));
    }
    while i < rows.len()
        invariant
            i <= rows@.len(),
            s0 == views(rows@),
            rows@.len() == s0.len(),
            views(out@).to_multiset() == s0.take(i as int).to_multiset(),
            sorted_rows(views(out@)),
        decreases rows@.len() - i,
    {
        let x = rows[i].clone();
        let ghost xv = x@;
        let p = insert_pos(&out, &x);
        let ghost prev = out@;
        let ghost vout = views(prev);
        out.insert(p, x);
        proof {
            lemma_views_insert(prev, p as int, out@[p as int]);
            assert(views(out@) =~= vout.insert(p as int, xv));
            vstd::seq_lib::to_multiset_insert(vout, p as int, xv);
            assert(s0.take(i + 1 as int) =~= s0.take(i as int).push(s0[i as int]));
            vstd::seq_lib::to_multiset_build(s0.take(i as int), s0[i as int]);
            let n = views(out@);
            assert forall|a: int, b: int| 0 <= a < b < n.len() implies row_le(n[a], n[b]) by {
                if b < p {
                    assert(row_le(vout[a], vout[b]));
                } else if a > p {
                    assert(row_le(vout[a - 1], vout[b - 1]));
                } else if a < p && b == p {
                    assert(row_le(vout[a], xv));
                } else if a == p && b > p {
                    assert(!row_le(vout[p as int], xv));
                    lemma_row_le_total(vout[p as int], xv);
                    if b - 1 > p {
                        assert(row_le(vout[p as int], vout[b - 1]));
                        lemma_row_le_trans(xv, vout[p as int], vout[b - 1]);
                    }
                } else {
                    assert(a < p && b > p);
                    assert(row_le(vout[a], vout[b - 1]));
                }
            }
        }
        i = i + 1;
    }
    proof {
        assert(s0.take(s0.len() as int) =~= s0);
    }
    out
}

/// All environments, in display order: by `sort_order`, ties in
/// creation-stamp order; the result holds exactly the store's rows.
pub fn get_all(store: &SyncStore) -> (r: Vec<Environment>)
    ensures
        views(r@).to_multiset() == store@.environments.to_multiset(),
        sorted_rows(views(r@)),
{
    let ghost s0 = store@.environments;
    let mut out: Vec<Environment> = Vec::new();
    let mut i: usize = 0;
    proof {
        assert(views(out@) =~= s0.take(0));
    }
    while i < store.environments.len()
        invariant
            i <= store.environments@.len(),
            s0 == store@.environments,
            store.environments@.len() == s0.len(),
            views(out@) == s0.take(i as int),
        decreases store.environments@.len() - i,
    {
        let ghost vout = out@;
        out.push(store.environments[i].clone());
        proof {
            lemma_views_push(vout, out@[vout.len() as int]);
            assert(views(out@) =~= s0.take(i + 1 as int));
        }
        i = i + 1;
    }
    proof {
        assert(s0.take(s0.len() as int) =~= s0);
    }
    sort_rows(out)
}

/// A row after a partial update: each `Some` field of the update is
/// written and `updated_at` is stamped.
pub open spec fn spec_updated(
    e: EnvironmentView,
    u: UpdateEnvironment,
    now: Seq<char>,
) -> EnvironmentView {
    EnvironmentView {
        name: match u.name {
            Some(x) => x@,
            None => e.name,
        },
        variables: match u.variables {
            Some(x) => x@,
            None => e.variables,
        },
        updated_at: now,
        ..e
    }
}

/// Applies a partial update to an environment; `updated_at` is stamped
/// whenever the row exists.  An unknown id is a silent no-op.
pub fn update(store: &mut SyncStore, id: &str, data: &UpdateEnvironment, now: &str)
    requires
        old(store).wf(),
    ensures
        final(store).wf(),
        ({
            let s0 = old(store)@.environments;
            if has_id(s0, id@) {
                final(store)@ == (StoreView {
                    environments: s0.update(
                        id_index(s0, id@),
                        spec_updated(s0[id_index(s0, id@)], *data, now@),
                    ),
                    ..old(store)@
                })
            } else {
                final(store)@ == old(store)@
            }
        }),
{
    let ghost s0 = store@.environments;
    let i = match find_by_id(&store.environments, id) {
        Some(i) => i,
        None => {
            return ;
        },
    };
    proof {
        lemma_id_index_is(s0, id@, i as int);
    }
    let prev = &store.environments[i];
    let row = Environment {
        id: prev.id.clone(),
        name: match &data.name {
            Some(x) => x.clone(),
            None => prev.name.clone(),
        },
        variables: match &data.variables {
            Some(x) => x.clone(),
            None => prev.variables.clone(),
        },
        is_global: prev.is_global,
        sort_order: prev.sort_order,
        updated_at: now.to_owned(),
        created_at: prev.created_at.clone(),
    };
    let ghost vrow = row@;
    store.environments[i] = row;
    proof {
        assert(vrow =~= spec_updated(s0[i as int], *data, now@));
        lemma_views_update(old(store).environments@, i as int, store.environments@[i as int]);
        assert(store@.environments =~= s0.update(i as int, vrow));
        assert forall|a: int, b: int|
            0 <= a < b < store@.environments.len() implies store@.environments[a].id
            != store@.environments[b].id by {
            assert(s0[a].id != s0[b].id);
        }
        assert(store@ =~= (StoreView { environments: s0.update(i as int, vrow), ..old(store)@ }));
    }
}

/// Deletes an environment by its local id.  The global environment is
/// protected and is never deleted.
pub fn delete(store: &mut SyncStore, id: &str) -> (r: Result<(), EnvironmentError>)
    requires
        old(store).wf(),
    ensures
        final(store).wf(),
        ({
            let s0 = old(store)@.environments;
            if !has_id(s0, id@) {
                r == Err::<(), EnvironmentError>(EnvironmentError::NotFound) && final(store)@ == old(
                    store,
                )@
            } else if s0[id_index(s0, id@)].is_global {
                r == Err::<(), EnvironmentError>(EnvironmentError::GlobalProtected) && final(store)@
                    == old(store)@
            } else {
                r == Ok::<(), EnvironmentError>(()) && final(store)@ == (StoreView {
                    environments: s0.remove(id_index(s0, id@)),
                    ..old(store)@
                })
            }
        }),
{
    let ghost s0 = store@.environments;
    let i = match find_by_id(&store.environments, id) {
        Some(i) => i,
        None => {
            return Err(EnvironmentError::NotFound);
        },
    };
    proof {
        lemma_id_index_is(s0, id@, i as int);
    }
    if store.environments[i].is_global {
        return Err(EnvironmentError::GlobalProtected);
    }
    store.environments.remove(i);
    proof {
        lemma_views_remove(old(store).environments@, i as int);
        assert(store@.environments =~= s0.remove(i as int));
        let rel = |a: EnvironmentView, b: EnvironmentView| a.id != b.id;
        lemma_remove_pairwise(s0, i as int, rel);
        assert forall|a: int, b: int|
            0 <= a < b < store@.environments.len() implies store@.environments[a].id
            != store@.environments[b].id by {
            assert(rel(s0.remove(i as int)[a], s0.remove(i as int)[b]));
        }
        assert(store@ =~= (StoreView { environments: s0.remove(i as int), ..old(store)@ }));
    }
    Ok(())
}

} // verus!
