use vstd::prelude::*;
use vstd::std_specs::iter::IteratorSpec;
use vstd::utf8::encode_scalar;
use vstd::utf8::encode_utf8;
use crate::error::SyncError;
use crate::ids::new_local_id;
use crate::store::keep;
use crate::store::lemma_remove_pairwise;
use crate::store::lemma_views_insert;
use crate::store::lemma_views_push;
use crate::store::lemma_views_remove;
use crate::store::views;
use crate::store::StoreView;
use crate::store::SyncStore;
use crate::strutil::clone_opt;
use crate::strutil::is_substring;
use crate::strutil::lemma_lex_le_total;
use crate::strutil::lemma_lex_le_trans;
use crate::strutil::lex_le;
use crate::strutil::opt_view;
use crate::strutil::str_contains;
use crate::strutil::str_eq;
use crate::strutil::str_le;

verus! {

/// Response bodies are kept only up to this many bytes of UTF-8;
/// longer ones are cut at a character boundary and flagged as
/// truncated.
pub const MAX_BODY_BYTES: usize = 1048576;

/// One executed request with its response, kept for later lookup.
#[derive(Debug)]
pub struct HistoryEntry {
    pub id: String,
    pub method: String,
    pub url: String,
    pub headers: String,
    pub params: String,
    pub body: String,
    pub auth: String,
    pub response_status: Option<i32>,
    pub response_status_text: Option<String>,
    pub response_headers: Option<String>,
    pub response_body: Option<String>,
    pub response_time_ms: Option<i64>,
    pub response_size_bytes: Option<i64>,
    pub response_body_truncated: bool,
    pub error: Option<String>,
    pub saved_request_id: Option<String>,
    pub timestamp: String,
}

#[verifier::ext_equal]
pub ghost struct HistoryEntryView {
    pub id: Seq<char>,
    pub method: Seq<char>,
    pub url: Seq<char>,
    pub headers: Seq<char>,
    pub params: Seq<char>,
    pub body: Seq<char>,
    pub auth: Seq<char>,
    pub response_status: Option<i32>,
    pub response_status_text: Option<Seq<char>>,
    pub response_headers: Option<Seq<char>>,
    pub response_body: Option<Seq<char>>,
    pub response_time_ms: Option<i64>,
    pub response_size_bytes: Option<i64>,
    pub response_body_truncated: bool,
    pub error: Option<Seq<char>>,
    pub saved_request_id: Option<Seq<char>>,
    pub timestamp: Seq<char>,
}

impl View for HistoryEntry {
    type V = HistoryEntryView;

    open spec fn view(&self) -> HistoryEntryView {
        HistoryEntryView {
            id: self.id@,
            method: self.method@,
            url: self.url@,
            headers: self.headers@,
            params: self.params@,
            body: self.body@,
            auth: self.auth@,
            response_status: self.response_status,
            response_status_text: opt_view(self.response_status_text),
            response_headers: opt_view(self.response_headers),
            response_body: opt_view(self.response_body),
            response_time_ms: self.response_time_ms,
            response_size_bytes: self.response_size_bytes,
            response_body_truncated: self.response_body_truncated,
            error: opt_view(self.error),
            saved_request_id: opt_view(self.saved_request_id),
            timestamp: self.timestamp@,
        }
    }
}

impl Clone for HistoryEntry {
    fn clone(&self) -> (res: Self)
        ensures
            res@ == self@,
    {
        HistoryEntry {
            id: self.id.clone(),
            method: self.method.clone(),
            url: self.url.clone(),
            headers: self.headers.clone(),
            params: self.params.clone(),
            body: self.body.clone(),
            auth: self.auth.clone(),
            response_status: self.response_status,
            response_status_text: clone_opt(&self.response_status_text),
            response_headers: clone_opt(&self.response_headers),
            response_body: clone_opt(&self.response_body),
            response_time_ms: self.response_time_ms,
            response_size_bytes: self.response_size_bytes,
            response_body_truncated: self.response_body_truncated,
            error: clone_opt(&self.error),
            saved_request_id: clone_opt(&self.saved_request_id),
            timestamp: self.timestamp.clone(),
        }
    }
}

pub open spec fn unique_ids(s: Seq<HistoryEntryView>) -> bool {
    forall|i: int, j: int| 0 <= i < j < s.len() ==> s[i].id != s[j].id
}

pub open spec fn has_id(s: Seq<HistoryEntryView>, id: Seq<char>) -> bool {
    exists|i: int| 0 <= i < s.len() && s[i].id == id
}

pub open spec fn id_index(s: Seq<HistoryEntryView>, id: Seq<char>) -> int {
    choose|i: int| 0 <= i < s.len() && s[i].id == id
}

/// The caller-supplied part of a history entry.
#[derive(Debug)]
pub struct CreateHistoryEntry {
    pub method: String,
    pub url: String,
    pub headers: String,
    pub params: String,
    pub body: String,
    pub auth: String,
    pub response_status: Option<i32>,
    pub response_status_text: Option<String>,
    pub response_headers: Option<String>,
    pub response_body: Option<String>,
    pub response_time_ms: Option<i64>,
    pub response_size_bytes: Option<i64>,
    pub error: Option<String>,
    pub saved_request_id: Option<String>,
}

/// Filters for searching the history.  Every field is optional; an
/// absent field does not constrain the result.
#[derive(Debug)]
pub struct HistorySearchParams {
    pub query: Option<String>,
    pub method: Option<String>,
    pub status_min: Option<i32>,
    pub status_max: Option<i32>,
    pub from_date: Option<String>,
    pub to_date: Option<String>,
    pub limit: Option<i64>,
    pub offset: Option<i64>,
}

/// With unique local ids, any row carrying `id` is the row `id_index`
/// names.
proof fn lemma_id_index_is(s: Seq<HistoryEntryView>, id: Seq<char>, i: int)
    requires
        unique_ids(s),
        0 <= i < s.len(),
        s[i].id == id,
    ensures
        has_id(s, id),
        id_index(s, id) == i,
{
    assert(has_id(s, id));
    let k = id_index(s, id);
    if k < i {
        assert(s[k].id != s[i].id);
    } else if i < k {
        assert(s[i].id != s[k].id);
    }
}

/// The first row with the given local id, if any.
fn find_by_id(v: &Vec<HistoryEntry>, id: &str) -> (r: Option<usize>)
    ensures
        match r {
            Some(i) => i < v@.len() && views(v@)[i as int].id == id@,
            None => !has_id(views(v@), id@),
        },
{
    let mut i: usize = 0;
    while i < v.len()
        invariant
            i <= v@.len(),
            forall|j: int| 0 <= j < i ==> views(v@)[j].id != id@,
        decreases v@.len() - i,
    {
        if str_eq(v[i].id.as_str(), id) {
            return Some(i);
        }
        i = i + 1;
    }
    None
}

/// How many characters, starting at `i`, fit into `budget` bytes of
/// UTF-8: the index at which a greedy left-to-right packing stops.
pub open spec fn clip_from(cs: Seq<char>, i: int, budget: int) -> int
    decreases cs.len() - i when 0 <= i <= cs.len()
{
    if i >= cs.len() {
        i
    } else {
        let l = encode_scalar(cs[i] as u32).len() as int;
        if l <= budget {
            clip_from(cs, i + 1, budget - l)
        } else {
            i
        }
    }
}

/// The longest character prefix whose UTF-8 encoding fits the cap.
pub open spec fn clip_count(cs: Seq<char>) -> int {
    clip_from(cs, 0, MAX_BODY_BYTES as int)
}

/// What the greedy packing guarantees: the kept segment fits the
/// remaining budget, and packing reaches the end exactly when the whole
/// remainder fits.
proof fn lemma_clip_from(cs: Seq<char>, i: int, budget: int)
    requires
        0 <= i <= cs.len(),
        0 <= budget,
    ensures
        i <= clip_from(cs, i, budget) <= cs.len(),
        encode_utf8(cs.subrange(i, clip_from(cs, i, budget))).len() <= budget,
        (clip_from(cs, i, budget) == cs.len()) <==> encode_utf8(cs.subrange(i, cs.len() as int)).len()
            <= budget,
    decreases cs.len() - i,
{
    if i >= cs.len() {
        assert(cs.subrange(i, i) =~= Seq::<char>::empty());
    } else {
        let l = encode_scalar(cs[i] as u32).len() as int;
        assert(l >= 1);
        let tail = cs.subrange(i, cs.len() as int);
        assert(tail.drop_first() =~= cs.subrange(i + 1, cs.len() as int));
        if l <= budget {
            lemma_clip_from(cs, i + 1, budget - l);
            let stop = clip_from(cs, i, budget);
            let seg = cs.subrange(i, stop);
            assert(seg.drop_first() =~= cs.subrange(i + 1, stop));
        } else {
            assert(cs.subrange(i, i) =~= Seq::<char>::empty());
            assert(encode_utf8(tail).len() >= l) by {
                assert(encode_utf8(tail) == encode_scalar(tail[0] as u32) + encode_utf8(
                    tail.drop_first(),
                ));
            }
        }
    }
}

/// The clipped prefix fits the cap, and nothing is clipped exactly when
/// the whole body fits.
pub proof fn lemma_clip_count(cs: Seq<char>)
    ensures
        0 <= clip_count(cs) <= cs.len(),
        encode_utf8(cs.take(clip_count(cs))).len() <= MAX_BODY_BYTES as int,
        (clip_count(cs) == cs.len()) <==> encode_utf8(cs).len() <= MAX_BODY_BYTES as int,
{
    lemma_clip_from(cs, 0, MAX_BODY_BYTES as int);
    assert(cs.subrange(0, clip_count(cs)) =~= cs.take(clip_count(cs)));
    assert(cs.subrange(0, cs.len() as int) =~= cs);
}

/// A stored response body: the longest character prefix whose UTF-8
/// encoding fits the byte cap, which is the whole body when it fits.
pub open spec fn spec_trunc_body(b: Option<Seq<char>>) -> Option<Seq<char>> {
    match b {
        None => None,
        Some(s) => Some(s.take(clip_count(s))),
    }
}

/// Whether the body was cut: its UTF-8 encoding is over the byte cap.
pub open spec fn spec_trunc_flag(b: Option<Seq<char>>) -> bool {
    match b {
        None => false,
        Some(s) => encode_utf8(s).len() > MAX_BODY_BYTES as int,
    }
}

/// The UTF-8 byte length of one character.
fn utf8_len(c: char) -> (r: usize)
    ensures
        r == encode_scalar(c as u32).len(),
{
    let u = c as u32;
    if u < 0x80 {
        1
    } else if u < 0x800 {
        2
    } else if u < 0x10000 {
        3
    } else {
        4
    }
}

/// How many leading characters of the string fit the byte cap, walked
/// in one pass over the characters.
fn clip_chars(s: &str) -> (k: usize)
    ensures
        k == clip_count(s@),
        k <= s@.len(),
{
    broadcast use vstd::string::axiom_spec_iter;
    broadcast use vstd::string::next_postcondition;

    let n = s.unicode_len();
    let mut it = s.chars();
    let mut i: usize = 0;
    let mut budget: usize = MAX_BODY_BYTES;
    proof {
        assert(it.remaining() =~= s@.skip(0));
    }
    while i < n
        invariant
            i <= n,
            n == s@.len(),
            it.obeys_prophetic_iter_laws(),
            it.remaining() == s@.skip(i as int),
            budget <= MAX_BODY_BYTES,
            clip_count(s@) == clip_from(s@, i as int, budget as int),
        decreases n - i,
    {
        let ghost before = it;
        let c = match it.next() {
            Some(c) => c,
            None => {
                proof {
                    assert(before.remaining().len() == s@.len() - i);
                    assert(false);
                }
                return i;
            },
        };
        proof {
            assert(c == before.remaining()[0]);
            assert(c == s@[i as int]);
            assert(it.remaining() =~= s@.skip(i as int + 1));
        }
        let l = utf8_len(c);
        if l > budget {
            return i;
        }
        budget = budget - l;
        i = i + 1;
    }
    i
}

/// A row as `create` builds it from the caller-supplied fields, with
/// the response body capped.
pub open spec fn spec_created(
    id: Seq<char>,
    data: CreateHistoryEntry,
    now: Seq<char>,
) -> HistoryEntryView {
    HistoryEntryView {
        id: id,
        method: data.method@,
        url: data.url@,
        headers: data.headers@,
        params: data.params@,
        body: data.body@,
        auth: data.auth@,
        response_status: data.response_status,
        response_status_text: opt_view(data.response_status_text),
        response_headers: opt_view(data.response_headers),
        response_body: spec_trunc_body(opt_view(data.response_body)),
        response_time_ms: data.response_time_ms,
        response_size_bytes: data.response_size_bytes,
        response_body_truncated: spec_trunc_flag(opt_view(data.response_body)),
        error: opt_view(data.error),
        saved_request_id: opt_view(data.saved_request_id),
        timestamp: now,
    }
}

/// Records one executed request under a caller-chosen id, cutting an
/// oversized response body at the cap.  It succeeds exactly when the id
/// is fresh.
pub fn create_with_id(store: &mut SyncStore, local_id: &str, data: &CreateHistoryEntry, now: &str) -> (r:
    Result<HistoryEntry, SyncError>)
    requires
        old(store).wf(),
    ensures
        final(store).wf(),
        r is Ok <==> !has_id(old(store)@.history, local_id@),
        r matches Ok(c) ==> {
            &&& c@ == spec_created(local_id@, *data, now@)
            &&& final(store)@ == (StoreView { history: old(store)@.history.push(c@), ..old(store)@ })
        },
        r is Err ==> r == Err::<HistoryEntry, SyncError>(SyncError::StoreUnavailable)
            && final(store)@ == old(store)@,
{
    let ghost s0 = store@.history;
    if find_by_id(&store.history, local_id).is_some() {
        return Err(SyncError::StoreUnavailable);
    }
    let (response_body, truncated) = match &data.response_body {
        Some(b) => {
            let blen = b.as_str().unicode_len();
            let k = clip_chars(b.as_str());
            proof {
                lemma_clip_count(b@);
            }
            if k < blen {
                (Some(b.as_str().substring_char(0, k).to_owned()), true)
            } else {
                proof {
                    assert(b@.take(clip_count(b@)) =~= b@);
                }
                (Some(b.clone()), false)
            }
        },
        None => (None, false),
    };
    let row = HistoryEntry {
        id: local_id.to_owned(),
        method: data.method.clone(),
        url: data.url.clone(),
        headers: data.headers.clone(),
        params: data.params.clone(),
        body: data.body.clone(),
        auth: data.auth.clone(),
        response_status: data.response_status,
        response_status_text: clone_opt(&data.response_status_text),
        response_headers: clone_opt(&data.response_headers),
        response_body: response_body,
        response_time_ms: data.response_time_ms,
        response_size_bytes: data.response_size_bytes,
        response_body_truncated: truncated,
        error: clone_opt(&data.error),
        saved_request_id: clone_opt(&data.saved_request_id),
        timestamp: now.to_owned(),
    };
    let result = row.clone();
    let ghost vrow = row@;
    store.history.push(row);
    proof {
        assert(vrow =~= spec_created(vrow.id, *data, now@));
        lemma_views_push(old(store).history@, store.history@[s0.len() as int]);
        assert(store@.history =~= s0.push(vrow));
        assert forall|a: int, b: int|
            0 <= a < b < s0.push(vrow).len() implies s0.push(vrow)[a].id != s0.push(vrow)[b].id by {
            if b == s0.len() {
                assert(!(s0[a].id == vrow.id));
            }
        }
        assert(store@ =~= (StoreView { history: s0.push(vrow), ..old(store)@ }));
    }
    Ok(result)
}

/// Records one executed request under a freshly generated id, cutting
/// an oversized response body at the cap.  The only failure is the
/// drawn id colliding with an existing row, which leaves the store
/// untouched; `create_with_id` carries the exact success law.
pub fn create(store: &mut SyncStore, data: &CreateHistoryEntry, now: &str) -> (r: Result<
    HistoryEntry,
    SyncError,
>)
    requires
        old(store).wf(),
    ensures
        final(store).wf(),
        r matches Ok(c) ==> {
            &&& !has_id(old(store)@.history, c@.id)
            &&& c@ == spec_created(c@.id, *data, now@)
            &&& final(store)@ == (StoreView { history: old(store)@.history.push(c@), ..old(store)@ })
        },
        r is Err ==> r == Err::<HistoryEntry, SyncError>(SyncError::StoreUnavailable)
            && final(store)@ == old(store)@,
{
    let local_id = new_local_id();
    create_with_id(store, local_id.as_str(), data, now)
}

/// Looks a history entry up by its id.
pub fn get_by_id(store: &SyncStore, id: &str) -> (r: Result<HistoryEntry, SyncError>)
    requires
        store.wf(),
    ensures
        match r {
            Ok(c) => has_id(store@.history, id@) && c@ == store@.history[id_index(
                store@.history,
                id@,
            )],
            Err(e) => e == SyncError::NotFound && !has_id(store@.history, id@),
        },
{
    match find_by_id(&store.history, id) {
        Some(i) => {
            proof {
                lemma_id_index_is(store@.history, id@, i as int);
            }
            Ok(store.history[i].clone())
        },
        None => Err(SyncError::NotFound),
    }
}

/// Whether an entry satisfies every given filter: a substring match on
/// the url, an exact method, a response-status range (an entry without
/// a status never matches a bound), and a timestamp range in the text
/// order of the stamps.
pub open spec fn spec_matches(e: HistoryEntryView, p: HistorySearchParams) -> bool {
    &&& (p.query matches Some(q) ==> is_substring(q@, e.url))
    &&& (p.method matches Some(m) ==> e.method == m@)
    &&& (p.status_min matches Some(lo) ==> e.response_status matches Some(st) && st >= lo)
    &&& (p.status_max matches Some(hi) ==> e.response_status matches Some(st) && st <= hi)
    &&& (p.from_date matches Some(d) ==> lex_le(d@, e.timestamp))
    &&& (p.to_date matches Some(d) ==> lex_le(e.timestamp, d@))
}

pub open spec fn search_pred(p: HistorySearchParams) -> spec_fn(HistoryEntryView) -> bool {
    |e: HistoryEntryView| spec_matches(e, p)
}

fn entry_matches(e: &HistoryEntry, p: &HistorySearchParams) -> (r: bool)
    ensures
        r == spec_matches(e@, *p),
{
    let q_ok = match &p.query {
        Some(q) => str_contains(e.url.as_str(), q.as_str()),
        None => true,
    };
    let m_ok = match &p.method {
        Some(m) => str_eq(e.method.as_str(), m.as_str()),
        None => true,
    };
    let lo_ok = match p.status_min {
        Some(lo) => match e.response_status {
            Some(st) => st >= lo,
            None => false,
        },
        None => true,
    };
    let hi_ok = match p.status_max {
        Some(hi) => match e.response_status {
            Some(st) => st <= hi,
            None => false,
        },
        None => true,
    };
    let from_ok = match &p.from_date {
        Some(d) => str_le(d.as_str(), e.timestamp.as_str()),
        None => true,
    };
    let to_ok = match &p.to_date {
        Some(d) => str_le(e.timestamp.as_str(), d.as_str()),
        None => true,
    };
    q_ok && m_ok && lo_ok && hi_ok && from_ok && to_ok
}

/// The search limit: the given one, or 100 when absent.
pub open spec fn eff_limit(p: HistorySearchParams) -> i64 {
    match p.limit {
        Some(l) => l,
        None => 100,
    }
}

/// The search offset: the given one, or 0 when absent.
pub open spec fn eff_offset(p: HistorySearchParams) -> i64 {
    match p.offset {
        Some(o) => o,
        None => 0,
    }
}

/// One page of a result list: skip `offset` entries, then yield up to
/// `limit`; a negative offset skips nothing and a negative limit means
/// no limit.
pub open spec fn page(
    s: Seq<HistoryEntryView>,
    limit: i64,
    offset: i64,
) -> Seq<HistoryEntryView> {
    let start0: int = if offset < 0 {
        0
    } else {
        offset as int
    };
    let start: int = if start0 <= s.len() {
        start0
    } else {
        s.len() as int
    };
    let avail: int = s.len() - start;
    let count: int = if limit < 0 {
        avail
    } else if limit as int <= avail {
        limit as int
    } else {
        avail
    };
    s.subrange(start, start + count)
}

/// `page`, seen after only the first `i` entries of the list: what the
/// paging loop has produced so far.
spec fn page_prefix(s: Seq<HistoryEntryView>, limit: i64, offset: i64, i: int) -> Seq<
    HistoryEntryView,
> {
    let start0: int = if offset < 0 {
        0
    } else {
        offset as int
    };
    let start: int = if start0 <= i {
        start0
    } else {
        i
    };
    let avail: int = i - start;
    let count: int = if limit < 0 {
        avail
    } else if limit as int <= avail {
        limit as int
    } else {
        avail
    };
    s.subrange(start, start + count)
}

/// Newest first: an entry precedes another when its timestamp is at
/// least the other's in text order.
pub open spec fn newer_le(a: HistoryEntryView, b: HistoryEntryView) -> bool {
    lex_le(b.timestamp, a.timestamp)
}

pub open spec fn sorted_newest_first(s: Seq<HistoryEntryView>) -> bool {
    forall|i: int, j: int| 0 <= i < j < s.len() ==> newer_le(s[i], s[j])
}

/// The position at which an entry joins a newest-first list: past
/// everything at least as new.
fn insert_pos(out: &Vec<HistoryEntry>, x: &HistoryEntry) -> (p: usize)
    ensures
        p <= out@.len(),
        forall|k: int| 0 <= k < p ==> newer_le(views(out@)[k], x@),
        p < out@.len() ==> !newer_le(views(out@)[p as int], x@),
{
    let mut j: usize = 0;
    while j < out.len()
        invariant
            j <= out@.len(),
            forall|k: int| 0 <= k < j ==> newer_le(views(out@)[k], x@),
        decreases out@.len() - j,
    {
        if !str_le(x.timestamp.as_str(), out[j].timestamp.as_str()) {
            return j;
        }
        j = j + 1;
    }
    j
}

/// Sorts entries newest first: the same entries, ordered by timestamp
/// descending.
fn sort_newest_first(rows: Vec<HistoryEntry>) -> (r: Vec<HistoryEntry>)
    ensures
        views(r@).to_multiset() == views(rows@).to_multiset(),
        sorted_newest_first(views(r@)),
{
    let ghost s0 = views(rows@);
    let mut out: Vec<HistoryEntry> = Vec::new();
    let mut i: usize = 0;
    proof {
        assert(views(out@) =~= s0.take(0));
    }
    while i < rows.len()
        invariant
            i <= rows@.len(),
            s0 == views(rows@),
            rows@.len() == s0.len(),
            views(out@).to_multiset() == s0.take(i as int).to_multiset(),
            sorted_newest_first(views(out@)),
        decreases rows@.len() - i,
    {
        let x = rows[i].clone();
        let ghost xv = x@;
        let p = insert_pos(&out, &x);
        let ghost prev = out@;
        let ghost vout = views(prev);
        out.insert(p, x);
        proof {
            lemma_views_insert(prev, p as int, out@[p as int]);
            assert(views(out@) =~= vout.insert(p as int, xv));
            vstd::seq_lib::to_multiset_insert(vout, p as int, xv);
            assert(s0.take(i + 1 as int) =~= s0.take(i as int).push(s0[i as int]));
            vstd::seq_lib::to_multiset_build(s0.take(i as int), s0[i as int]);
            let n = views(out@);
            assert forall|a: int, b: int| 0 <= a < b < n.len() implies newer_le(n[a], n[b]) by {
                if b < p {
                    assert(newer_le(vout[a], vout[b]));
                } else if a > p {
                    assert(newer_le(vout[a - 1], vout[b - 1]));
                } else if a < p && b == p {
                    assert(newer_le(vout[a], xv));
                } else if a == p && b > p {
                    assert(!newer_le(vout[p as int], xv));
                    lemma_lex_le_total(vout[p as int].timestamp, xv.timestamp);
                    if b - 1 > p {
                        assert(newer_le(vout[p as int], vout[b - 1]));
                        lemma_lex_le_trans(
                            vout[b - 1].timestamp,
                            vout[p as int].timestamp,
                            xv.timestamp,
                        );
                    }
                } else {
                    assert(a < p && b > p);
                    assert(newer_le(vout[a], vout[b - 1]));
                }
            }
        }
        i = i + 1;
    }
    proof {
        assert(s0.take(s0.len() as int) =~= s0);
    }
    out
}

/// Searches the history: every entry matching the filters, ordered by
/// timestamp descending (entries with equal stamps in no fixed order,
/// as a query sorting on the stamp leaves them), paged by the offset
/// and limit.
pub fn search(store: &SyncStore, params: &HistorySearchParams) -> (r: Vec<HistoryEntry>)
    requires
        store@.history.len() < 0x7fff_ffff_ffff_ffff,
    ensures
        exists|sorted: Seq<HistoryEntryView>|
            {
                &&& #[trigger] sorted.to_multiset() == keep(
                    store@.history,
                    search_pred(*params),
                ).to_multiset()
                &&& sorted_newest_first(sorted)
                &&& views(r@) == page(sorted, eff_limit(*params), eff_offset(*params))
            },
{
    let ghost s0 = store@.history;
    let ghost pred = search_pred(*params);
    let mut kept: Vec<HistoryEntry> = Vec::new();
    let mut i: usize = 0;
    proof {
        assert(views(kept@) =~= keep(s0.take(0), pred));
    }
    while i < store.history.len()
        invariant
            i <= store.history@.len(),
            s0 == store@.history,
            store.history@.len() == s0.len(),
            views(kept@) == keep(s0.take(i as int), pred),
            pred == search_pred(*params),
        decreases store.history@.len() - i,
    {
        proof {
            assert(s0.take(i + 1 as int).drop_last() =~= s0.take(i as int));
            assert(s0.take(i + 1 as int).last() == s0[i as int]);
        }
        let e = &store.history[i];
        if entry_matches(e, params) {
            let ghost vout = kept@;
            kept.push(e.clone());
            proof {
                lemma_views_push(vout, kept@[vout.len() as int]);
                assert(views(kept@) =~= keep(s0.take(i + 1 as int), pred));
            }
        }
        i = i + 1;
    }
    proof {
        assert(s0.take(s0.len() as int) =~= s0);
        crate::store::lemma_keep_membership(s0, pred);
    }
    let ghost kv = views(kept@);
    let rev = sort_newest_first(kept);
    let ghost rv = views(rev@);
    proof {
        vstd::seq_lib::to_multiset_len(rv);
        vstd::seq_lib::to_multiset_len(kv);
    }
    let lim: i64 = match params.limit {
        Some(l) => l,
        None => 100,
    };
    let off: i64 = match params.offset {
        Some(o) => o,
        None => 0,
    };
    let mut out: Vec<HistoryEntry> = Vec::new();
    let mut m: usize = 0;
    proof {
        assert(views(out@) =~= page_prefix(rv, lim, off, 0));
    }
    while m < rev.len()
        invariant
            m <= rev@.len(),
            rv == views(rev@),
            rev@.len() == rv.len(),
            rv.len() <= s0.len(),
            s0.len() < 0x7fff_ffff_ffff_ffff,
            views(out@) == page_prefix(rv, lim, off, m as int),
            out@.len() <= m,
        decreases rev@.len() - m,
    {
        let in_skip = off >= 0 && (m as i64) < off;
        let at_cap = lim >= 0 && (out.len() as i64) >= lim;
        if !in_skip && !at_cap {
            let ghost vout = out@;
            out.push(rev[m].clone());
            proof {
                lemma_views_push(vout, out@[vout.len() as int]);
            }
        }
        proof {
            assert(views(out@) =~= page_prefix(rv, lim, off, m as int + 1));
        }
        m = m + 1;
    }
    proof {
        assert(page_prefix(rv, lim, off, rv.len() as int) =~= page(rv, lim, off));
        assert(rv.to_multiset() == keep(store@.history, search_pred(*params)).to_multiset());
    }
    out
}

/// Deletes a history entry by its id; an unknown id is a silent no-op.
pub fn delete(store: &mut SyncStore, id: &str)
    requires
        old(store).wf(),
    ensures
        final(store).wf(),
        ({
            let s0 = old(store)@.history;
            if has_id(s0, id@) {
                final(store)@ == (StoreView { history: s0.remove(id_index(s0, id@)), ..old(store)@ })
            } else {
                final(store)@ == old(store)@
            }
        }),
{
    let ghost s0 = store@.history;
    let i = match find_by_id(&store.history, id) {
        Some(i) => i,
        None => {
            return ;
        },
    };
    proof {
        lemma_id_index_is(s0, id@, i as int);
    }
    store.history.remove(i);
    proof {
        lemma_views_remove(old(store).history@, i as int);
        assert(store@.history =~= s0.remove(i as int));
        let rel = |a: HistoryEntryView, b: HistoryEntryView| a.id != b.id;
        lemma_remove_pairwise(s0, i as int, rel);
        assert forall|a: int, b: int|
            0 <= a < b < store@.history.len() implies store@.history[a].id
            != store@.history[b].id by {
            assert(rel(s0.remove(i as int)[a], s0.remove(i as int)[b]));
        }
        assert(store@ =~= (StoreView { history: s0.remove(i as int), ..old(store)@ }));
    }
}

/// Clears the whole history.
pub fn clear(store: &mut SyncStore)
    requires
        old(store).wf(),
    ensures
        final(store).wf(),
        final(store)@ == (StoreView { history: Seq::<HistoryEntryView>::empty(), ..old(store)@ }),
{
    store.history.clear();
    proof {
        assert(store@.history =~= Seq::<HistoryEntryView>::empty());
        assert(store@ =~= (StoreView { history: Seq::<HistoryEntryView>::empty(), ..old(store)@ }));
    }
}

/// The entries young enough to keep: stamped at or after the cutoff.
pub open spec fn fresh_pred(cutoff: Seq<char>) -> spec_fn(HistoryEntryView) -> bool {
    |e: HistoryEntryView| lex_le(cutoff, e.timestamp)
}

/// Removes every entry stamped strictly before the cutoff timestamp
/// and says how many went.  The caller computes the cutoff from its
/// retention window.
pub fn cleanup_old(store: &mut SyncStore, cutoff: &str) -> (r: u64)
    requires
        old(store).wf(),
        old(store)@.history.len() <= u64::MAX,
    ensures
        final(store).wf(),
        final(store)@ == (StoreView {
            history: keep(old(store)@.history, fresh_pred(cutoff@)),
            ..old(store)@
        }),
        r == old(store)@.history.len() - final(store)@.history.len(),
{
    let ghost s0 = store@.history;
    let ghost pred = fresh_pred(cutoff@);
    let before = store.history.len();
    let mut out: Vec<HistoryEntry> = Vec::new();
    let mut i: usize = 0;
    proof {
        assert(views(out@) =~= keep(s0.take(0), pred));
    }
    while i < store.history.len()
        invariant
            i <= store.history@.len(),
            s0 == store@.history,
            store.history@.len() == s0.len(),
            views(out@) == keep(s0.take(i as int), pred),
            out@.len() <= i,
            pred == fresh_pred(cutoff@),
        decreases store.history@.len() - i,
    {
        proof {
            assert(s0.take(i + 1 as int).drop_last() =~= s0.take(i as int));
            assert(s0.take(i + 1 as int).last() == s0[i as int]);
        }
        let e = &store.history[i];
        if str_le(cutoff, e.timestamp.as_str()) {
            let ghost vout = out@;
            out.push(e.clone());
            proof {
                lemma_views_push(vout, out@[vout.len() as int]);
                assert(views(out@) =~= keep(s0.take(i + 1 as int), pred));
            }
        }
        i = i + 1;
    }
    proof {
        assert(s0.take(s0.len() as int) =~= s0);
    }
    let after = out.len();
    store.history = out;
    proof {
        crate::store::lemma_keep_membership(s0, pred);
        let rel = |a: HistoryEntryView, b: HistoryEntryView| a.id != b.id;
        crate::store::lemma_keep_pairwise(s0, pred, rel);
        assert forall|a: int, b: int|
            0 <= a < b < store@.history.len() implies store@.history[a].id
            != store@.history[b].id by {
            assert(rel(keep(s0, pred)[a], keep(s0, pred)[b]));
        }
        assert(store@ =~= (StoreView { history: keep(s0, pred), ..old(store)@ }));
    }
    (before - after) as u64
}

} // verus!
