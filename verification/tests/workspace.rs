use hermes_sync::collections;
use hermes_sync::environments;
use hermes_sync::environments::EnvironmentError;
use hermes_sync::folders;
use hermes_sync::history;
use hermes_sync::http::enabled_headers;
use hermes_sync::http::HeaderEntry;
use hermes_sync::requests;
use hermes_sync::settings;
use hermes_sync::SyncError;
use hermes_sync::SyncStore;

const T1: &str = "2024-01-01 10:00:00";
const T2: &str = "2024-01-02 10:00:00";
const T3: &str = "2024-01-03 10:00:00";

fn request_data(collection_id: &str, name: &str) -> requests::CreateRequest {
    requests::CreateRequest {
        collection_id: collection_id.to_string(),
        folder_id: None,
        name: name.to_string(),
        method: "GET".to_string(),
        url: "https://example.test/a".to_string(),
        headers: "[]".to_string(),
        params: "[]".to_string(),
        body: "{\"type\":\"none\"}".to_string(),
        auth: "{\"type\":\"none\"}".to_string(),
    }
}

fn history_data(method: &str, url: &str, status: Option<i32>) -> history::CreateHistoryEntry {
    history::CreateHistoryEntry {
        method: method.to_string(),
        url: url.to_string(),
        headers: "[]".to_string(),
        params: "[]".to_string(),
        body: "".to_string(),
        auth: "{\"type\":\"none\"}".to_string(),
        response_status: status,
        response_status_text: None,
        response_headers: None,
        response_body: Some("ok".to_string()),
        response_time_ms: Some(12),
        response_size_bytes: Some(2),
        error: None,
        saved_request_id: None,
    }
}

#[test]
fn create_assigns_defaults_and_increasing_sort_order() {
    let mut store = SyncStore::new();
    let c1 = collections::create(&mut store, "First", T1).unwrap();
    let c2 = collections::create(&mut store, "Second", T1).unwrap();
    assert_eq!(c1.sort_order, 0);
    assert_eq!(c2.sort_order, 1);
    assert_eq!(c1.description, "");
    assert_eq!(c1.default_headers, "[]");
    assert_eq!(c1.default_auth, "{\"type\":\"none\"}");
    assert_eq!(c1.variables, "[]");
    assert_eq!(c1.created_at, T1);
    assert_eq!(c1.updated_at, T1);
    assert_eq!(c1.cloud_id, None);
    assert_eq!(c1.synced_at, None);
    assert!(!c1.dirty);
    assert_ne!(c1.id, c2.id);
    assert_eq!(collections::get_all(&store).len(), 2);
}

#[test]
fn folder_sort_order_counts_within_its_collection() {
    let mut store = SyncStore::new();
    let ca = collections::create(&mut store, "A", T1).unwrap();
    let cb = collections::create(&mut store, "B", T1).unwrap();
    let f1 = folders::create(&mut store, &ca.id, "F1", None, T1).unwrap();
    let f2 = folders::create(&mut store, &ca.id, "F2", None, T1).unwrap();
    let g1 = folders::create(&mut store, &cb.id, "G1", None, T1).unwrap();
    assert_eq!(f1.sort_order, 0);
    assert_eq!(f2.sort_order, 1);
    assert_eq!(g1.sort_order, 0);
    let child = folders::create(&mut store, &ca.id, "Child", Some(&f1.id), T1).unwrap();
    assert_eq!(child.parent_folder_id, Some(f1.id.clone()));
}

#[test]
fn get_by_team_returns_only_that_team() {
    let mut store = SyncStore::new();
    let c1 = collections::create(&mut store, "A", T1).unwrap();
    let c2 = collections::create(&mut store, "B", T1).unwrap();
    let _c3 = collections::create(&mut store, "C", T1).unwrap();
    collections::mark_synced(&mut store, &c1.id, "cc1", "team-1", T1).unwrap();
    collections::mark_synced(&mut store, &c2.id, "cc2", "team-2", T1).unwrap();
    let team1 = collections::get_by_team(&store, "team-1");
    assert_eq!(team1.len(), 1);
    assert_eq!(team1[0].id, c1.id);
}

#[test]
fn lookup_of_missing_rows_is_not_found() {
    let store = SyncStore::new();
    assert_eq!(collections::get_by_id(&store, "nope").unwrap_err(), SyncError::NotFound);
    assert_eq!(folders::get_by_id(&store, "nope").unwrap_err(), SyncError::NotFound);
    assert_eq!(requests::get_by_id(&store, "nope").unwrap_err(), SyncError::NotFound);
    assert_eq!(history::get_by_id(&store, "nope").unwrap_err(), SyncError::NotFound);
}

#[test]
fn duplicate_copies_content_but_not_sync_state() {
    let mut store = SyncStore::new();
    let c1 = collections::create(&mut store, "C", T1).unwrap();
    let r1 = requests::create(&mut store, &request_data(&c1.id, "Ping"), T1).unwrap();
    requests::mark_synced(&mut store, &r1.id, "rr1", T1).unwrap();

    let copy = requests::duplicate(&mut store, &r1.id, T2).unwrap();
    assert_eq!(copy.name, "Copy of Ping");
    assert_ne!(copy.id, r1.id);
    assert_eq!(copy.collection_id, r1.collection_id);
    assert_eq!(copy.method, "GET");
    assert_eq!(copy.sort_order, r1.sort_order + 1);
    assert_eq!(copy.cloud_id, None);
    assert_eq!(copy.synced_at, None);
    assert!(!copy.dirty);
    assert_eq!(copy.created_at, T2);

    assert_eq!(
        requests::duplicate(&mut store, "missing", T2).unwrap_err(),
        SyncError::NotFound
    );
}

#[test]
fn move_request_rewrites_parents_only() {
    let mut store = SyncStore::new();
    let ca = collections::create(&mut store, "A", T1).unwrap();
    let cb = collections::create(&mut store, "B", T1).unwrap();
    let f = folders::create(&mut store, &cb.id, "F", None, T1).unwrap();
    let r = requests::create(&mut store, &request_data(&ca.id, "R"), T1).unwrap();

    requests::move_request(&mut store, &r.id, Some(&f.id), &cb.id, T2);
    let moved = requests::get_by_id(&store, &r.id).unwrap();
    assert_eq!(moved.collection_id, cb.id);
    assert_eq!(moved.folder_id, Some(f.id.clone()));
    assert_eq!(moved.updated_at, T2);
    assert_eq!(moved.name, "R");
}

#[test]
fn deletes_remove_single_rows() {
    let mut store = SyncStore::new();
    let c1 = collections::create(&mut store, "C", T1).unwrap();
    let f1 = folders::create(&mut store, &c1.id, "F", None, T1).unwrap();
    let r1 = requests::create(&mut store, &request_data(&c1.id, "R"), T1).unwrap();

    requests::delete(&mut store, &r1.id);
    folders::delete(&mut store, &f1.id);
    collections::delete(&mut store, &c1.id);
    assert!(store.collections.is_empty());
    assert!(store.folders.is_empty());
    assert!(store.requests.is_empty());
}

#[test]
fn environment_lifecycle_and_global_guard() {
    let mut store = SyncStore::new();
    // The global environment is seeded by the persistence layer.
    store.environments.push(hermes_sync::environments::Environment {
        id: "global".to_string(),
        name: "Global".to_string(),
        variables: "[]".to_string(),
        is_global: true,
        sort_order: 0,
        updated_at: T1.to_string(),
        created_at: T1.to_string(),
    });

    let e1 = environments::create(&mut store, "Staging", T1).unwrap();
    assert_eq!(e1.variables, "[]");
    assert!(!e1.is_global);
    assert_eq!(e1.sort_order, 1);

    let upd = environments::UpdateEnvironment {
        name: Some("Production".to_string()),
        variables: None,
    };
    environments::update(&mut store, &e1.id, &upd, T2);
    let row = environments::get_by_id(&store, &e1.id).unwrap();
    assert_eq!(row.name, "Production");
    assert_eq!(row.updated_at, T2);

    assert_eq!(
        environments::delete(&mut store, "global").unwrap_err(),
        EnvironmentError::GlobalProtected
    );
    assert_eq!(
        environments::delete(&mut store, "missing").unwrap_err(),
        EnvironmentError::NotFound
    );
    environments::delete(&mut store, &e1.id).unwrap();
    assert_eq!(environments::get_all(&store).len(), 1);
    assert_eq!(
        EnvironmentError::GlobalProtected.message(),
        "cannot delete the global environment"
    );
}

#[test]
fn settings_upsert_by_key() {
    let mut store = SyncStore::new();
    assert_eq!(settings::get(&store, "theme"), None);
    settings::set(&mut store, "theme", "dark");
    settings::set(&mut store, "proxy", "off");
    assert_eq!(settings::get(&store, "theme"), Some("dark".to_string()));
    settings::set(&mut store, "theme", "light");
    assert_eq!(settings::get(&store, "theme"), Some("light".to_string()));
    assert_eq!(store.settings.len(), 2);
}

#[test]
fn history_create_truncates_oversized_bodies() {
    let mut store = SyncStore::new();
    let mut data = history_data("GET", "https://example.test/big", Some(200));
    data.response_body = Some("x".repeat(history::MAX_BODY_BYTES + 5));
    let entry = history::create(&mut store, &data, T1).unwrap();
    assert!(entry.response_body_truncated);
    assert_eq!(entry.response_body.as_ref().unwrap().len(), history::MAX_BODY_BYTES);

    let small = history::create(&mut store, &history_data("GET", "https://a", Some(200)), T1)
        .unwrap();
    assert!(!small.response_body_truncated);
    assert_eq!(small.response_body, Some("ok".to_string()));
    assert_eq!(small.timestamp, T1);
}

#[test]
fn history_truncation_counts_bytes_and_keeps_characters_whole() {
    let mut store = SyncStore::new();
    // Two bytes per character: over the cap in bytes while far under it
    // in characters.
    let mut data = history_data("GET", "https://example.test/utf8", Some(200));
    data.response_body = Some("\u{e9}".repeat(history::MAX_BODY_BYTES / 2 + 10));
    let entry = history::create(&mut store, &data, T1).unwrap();
    assert!(entry.response_body_truncated);
    let stored = entry.response_body.as_ref().unwrap();
    // The cut lands on a character boundary at the byte cap.
    assert_eq!(stored.len(), history::MAX_BODY_BYTES);
    assert!(stored.chars().all(|c| c == '\u{e9}'));
}

#[test]
fn history_search_filters_and_pages_newest_first() {
    let mut store = SyncStore::new();
    history::create(&mut store, &history_data("GET", "https://api.test/users", Some(200)), T1)
        .unwrap();
    history::create(&mut store, &history_data("POST", "https://api.test/users", Some(500)), T2)
        .unwrap();
    history::create(&mut store, &history_data("GET", "https://other.test/ping", Some(404)), T3)
        .unwrap();

    let all = history::HistorySearchParams {
        query: None,
        method: None,
        status_min: None,
        status_max: None,
        from_date: None,
        to_date: None,
        limit: None,
        offset: None,
    };
    let r = history::search(&store, &all);
    assert_eq!(r.len(), 3);
    // Newest first.
    assert_eq!(r[0].timestamp, T3);
    assert_eq!(r[2].timestamp, T1);

    let users_only = history::HistorySearchParams { query: Some("users".to_string()), ..all_params() };
    let r = history::search(&store, &users_only);
    assert_eq!(r.len(), 2);

    let errors_only = history::HistorySearchParams {
        status_min: Some(400),
        ..all_params()
    };
    let r = history::search(&store, &errors_only);
    assert_eq!(r.len(), 2);
    assert_eq!(r[0].response_status, Some(404));

    let gets = history::HistorySearchParams { method: Some("GET".to_string()), ..all_params() };
    assert_eq!(history::search(&store, &gets).len(), 2);

    let dated = history::HistorySearchParams {
        from_date: Some(T2.to_string()),
        to_date: Some(T2.to_string()),
        ..all_params()
    };
    let r = history::search(&store, &dated);
    assert_eq!(r.len(), 1);
    assert_eq!(r[0].method, "POST");

    let paged = history::HistorySearchParams {
        limit: Some(1),
        offset: Some(1),
        ..all_params()
    };
    let r = history::search(&store, &paged);
    assert_eq!(r.len(), 1);
    assert_eq!(r[0].timestamp, T2);
}

fn all_params() -> history::HistorySearchParams {
    history::HistorySearchParams {
        query: None,
        method: None,
        status_min: None,
        status_max: None,
        from_date: None,
        to_date: None,
        limit: None,
        offset: None,
    }
}

#[test]
fn history_delete_clear_and_cleanup() {
    let mut store = SyncStore::new();
    let e1 = history::create(&mut store, &history_data("GET", "https://a", Some(200)), T1)
        .unwrap();
    history::create(&mut store, &history_data("GET", "https://b", Some(200)), T2).unwrap();
    history::create(&mut store, &history_data("GET", "https://c", Some(200)), T3).unwrap();

    history::delete(&mut store, &e1.id);
    assert_eq!(store.history.len(), 2);

    // Everything stamped strictly before the cutoff goes.
    let removed = history::cleanup_old(&mut store, T3);
    assert_eq!(removed, 1);
    assert_eq!(store.history.len(), 1);
    assert_eq!(store.history[0].timestamp, T3);

    history::clear(&mut store);
    assert!(store.history.is_empty());
}

#[test]
fn enabled_headers_drops_disabled_and_unnamed() {
    let headers = vec![
        HeaderEntry { key: "Accept".to_string(), value: "*/*".to_string(), enabled: true },
        HeaderEntry { key: "X-Debug".to_string(), value: "1".to_string(), enabled: false },
        HeaderEntry { key: "".to_string(), value: "ghost".to_string(), enabled: true },
        HeaderEntry { key: "User-Agent".to_string(), value: "hermes".to_string(), enabled: true },
    ];
    let sent = enabled_headers(&headers);
    assert_eq!(sent.len(), 2);
    assert_eq!(sent[0].key, "Accept");
    assert_eq!(sent[1].key, "User-Agent");
}

#[test]
fn deleting_a_collection_cascades_to_its_folders_and_requests() {
    let mut store = SyncStore::new();
    let c1 = collections::create(&mut store, "Doomed", T1).unwrap();
    let c2 = collections::create(&mut store, "Kept", T1).unwrap();
    let _f1 = folders::create(&mut store, &c1.id, "F1", None, T1).unwrap();
    let _r1 = requests::create(&mut store, &request_data(&c1.id, "R1"), T1).unwrap();
    let f2 = folders::create(&mut store, &c2.id, "F2", None, T1).unwrap();
    let r2 = requests::create(&mut store, &request_data(&c2.id, "R2"), T1).unwrap();

    collections::delete(&mut store, &c1.id);
    assert!(collections::get_by_id(&store, &c1.id).is_err());
    assert_eq!(store.folders.len(), 1);
    assert_eq!(store.folders[0].id, f2.id);
    assert_eq!(store.requests.len(), 1);
    assert_eq!(store.requests[0].id, r2.id);
}

#[test]
fn deleting_a_folder_cascades_to_descendants_and_detaches_requests() {
    let mut store = SyncStore::new();
    let c1 = collections::create(&mut store, "C", T1).unwrap();
    let top = folders::create(&mut store, &c1.id, "Top", None, T1).unwrap();
    let mid = folders::create(&mut store, &c1.id, "Mid", Some(&top.id), T1).unwrap();
    let leaf = folders::create(&mut store, &c1.id, "Leaf", Some(&mid.id), T1).unwrap();
    let side = folders::create(&mut store, &c1.id, "Side", None, T1).unwrap();
    let mut rq = request_data(&c1.id, "R");
    rq.folder_id = Some(leaf.id.clone());
    let r1 = requests::create(&mut store, &rq, T1).unwrap();
    assert_eq!(r1.folder_id, Some(leaf.id.clone()));

    folders::delete(&mut store, &top.id);
    // The whole parent chain under `top` is gone; the sibling stays.
    assert_eq!(store.folders.len(), 1);
    assert_eq!(store.folders[0].id, side.id);
    // The request survives but loses its folder reference.
    let r1 = requests::get_by_id(&store, &r1.id).unwrap();
    assert_eq!(r1.folder_id, None);
    assert_eq!(r1.collection_id, c1.id);
}

#[test]
fn create_rejects_missing_parents() {
    let mut store = SyncStore::new();
    let e = folders::create(&mut store, "no-such-collection", "F", None, T1);
    assert_eq!(e.unwrap_err(), SyncError::NotFound);

    let c1 = collections::create(&mut store, "C", T1).unwrap();
    let e = folders::create(&mut store, &c1.id, "F", Some("no-such-folder"), T1);
    assert_eq!(e.unwrap_err(), SyncError::NotFound);

    let mut rq = request_data("no-such-collection", "R");
    assert_eq!(requests::create(&mut store, &rq, T1).unwrap_err(), SyncError::NotFound);
    rq.collection_id = c1.id.clone();
    rq.folder_id = Some("no-such-folder".to_string());
    assert_eq!(requests::create(&mut store, &rq, T1).unwrap_err(), SyncError::NotFound);

    rq.folder_id = None;
    assert!(requests::create(&mut store, &rq, T1).is_ok());
    assert!(store.folders.is_empty());
    assert_eq!(store.requests.len(), 1);
}

#[test]
fn get_all_returns_display_order() {
    let mut store = SyncStore::new();
    let c1 = collections::create(&mut store, "First", T2).unwrap();
    let _c2 = collections::create(&mut store, "Second", T3).unwrap();
    // A cloud record may carry any sort order; the listing re-sorts.
    let pulled = collections::upsert_from_cloud(
        &mut store, "cc-early", "team-1", "Pulled", "", "[]", "{\"type\":\"none\"}", "[]", -7,
        T1,
    )
    .unwrap();
    let all = collections::get_all(&store);
    assert_eq!(all.len(), 3);
    assert_eq!(all[0].id, pulled.id);
    assert_eq!(all[1].id, c1.id);
    assert_eq!(all[1].sort_order, 0);
    assert_eq!(all[2].sort_order, 1);
}

#[test]
fn check_wf_accepts_consistent_and_rejects_corrupt_stores() {
    let mut store = SyncStore::new();
    let c1 = collections::create(&mut store, "C", T1).unwrap();
    collections::mark_synced(&mut store, &c1.id, "cc1", "team-1", T1).unwrap();
    assert!(store.check_wf());

    // A hand-made duplicate local id, as a corrupted database could
    // hold, is caught before any verified operation trusts the store.
    let mut copy = store.collections[0].clone();
    copy.cloud_id = None;
    copy.dirty = false;
    store.collections.push(copy);
    assert!(!store.check_wf());
}
