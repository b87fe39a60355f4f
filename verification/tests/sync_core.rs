use hermes_sync::collections;
use hermes_sync::folders;
use hermes_sync::orchestrator;
use hermes_sync::requests;
use hermes_sync::sync;
use hermes_sync::EntityKind;
use hermes_sync::SyncError;
use hermes_sync::SyncOperation;
use hermes_sync::SyncStore;

const T1: &str = "2024-01-01 10:00:00";
const T2: &str = "2024-01-02 10:00:00";
const T3: &str = "2024-01-03 10:00:00";

#[test]
fn private_collection_never_dirties_then_shared_dirties() {
    let mut store = SyncStore::new();
    let c1 = collections::create(&mut store, "My API", T1).unwrap();
    assert!(!c1.dirty);
    assert_eq!(c1.team_id, None);

    // Mutating a private collection produces no sync traffic.
    let upd = collections::UpdateCollection {
        name: Some("Renamed".to_string()),
        description: None,
        default_headers: None,
        default_auth: None,
        variables: None,
    };
    collections::update(&mut store, &c1.id, &upd, T1);
    collections::mark_dirty(&mut store, &c1.id);
    let row = collections::get_by_id(&store, &c1.id).unwrap();
    assert_eq!(row.name, "Renamed");
    assert!(!row.dirty);

    // Share the collection: bind it to its remote identity and team.
    collections::mark_synced(&mut store, &c1.id, "cloud-abc", "team-1", T1).unwrap();
    let row = collections::get_by_id(&store, &c1.id).unwrap();
    assert_eq!(row.team_id, Some("team-1".to_string()));
    assert!(!row.dirty);

    // Now the same mutation dirties it.
    let upd2 = collections::UpdateCollection {
        name: Some("Renamed again".to_string()),
        description: None,
        default_headers: None,
        default_auth: None,
        variables: None,
    };
    collections::update(&mut store, &c1.id, &upd2, T2);
    let row = collections::get_by_id(&store, &c1.id).unwrap();
    assert!(row.dirty);

    // A successful push binds again and clears the flag atomically.
    collections::mark_synced(&mut store, &c1.id, "cloud-abc", "team-1", T3).unwrap();
    let row = collections::get_by_id(&store, &c1.id).unwrap();
    assert!(!row.dirty);
    assert_eq!(row.synced_at, Some(T3.to_string()));
    assert_eq!(row.cloud_id, Some("cloud-abc".to_string()));
}

#[test]
fn noop_update_does_not_dirty_a_shared_collection() {
    let mut store = SyncStore::new();
    let c1 = collections::create(&mut store, "C", T1).unwrap();
    collections::mark_synced(&mut store, &c1.id, "cloud-1", "team-1", T1).unwrap();
    let noop = collections::UpdateCollection {
        name: None,
        description: None,
        default_headers: None,
        default_auth: None,
        variables: None,
    };
    collections::update(&mut store, &c1.id, &noop, T2);
    let row = collections::get_by_id(&store, &c1.id).unwrap();
    assert!(!row.dirty);
    // The no-op did not even stamp the row.
    assert_eq!(row.updated_at, T1);
}

#[test]
fn reconcile_folder_twice_is_idempotent() {
    let mut store = SyncStore::new();
    let c1 = collections::create(&mut store, "C", T1).unwrap();

    let f = orchestrator::pull_folder(
        &mut store, "f1", &c1.id, None, "Folder", "[]", "{\"type\":\"none\"}", "[]", 3, T1,
    )
    .unwrap();
    let f2 = orchestrator::pull_folder(
        &mut store, "f1", &c1.id, None, "Folder", "[]", "{\"type\":\"none\"}", "[]", 3, T2,
    )
    .unwrap();

    // Same local row, same content; only the sync stamp moved.
    assert_eq!(f2.id, f.id);
    assert_eq!(f2.name, f.name);
    assert_eq!(f2.collection_id, f.collection_id);
    assert_eq!(f2.parent_folder_id, f.parent_folder_id);
    assert_eq!(f2.sort_order, f.sort_order);
    assert_eq!(f2.created_at, f.created_at);
    assert_eq!(f.synced_at, Some(T1.to_string()));
    assert_eq!(f2.synced_at, Some(T2.to_string()));
    assert_eq!(store.folders.len(), 1);
}

#[test]
fn reconcile_collection_twice_keeps_one_row() {
    let mut store = SyncStore::new();
    let a = collections::upsert_from_cloud(
        &mut store, "remote-9", "team-1", "Shared", "", "[]", "{\"type\":\"none\"}", "[]", 0, T1,
    )
    .unwrap();
    let b = collections::upsert_from_cloud(
        &mut store, "remote-9", "team-1", "Shared v2", "", "[]", "{\"type\":\"none\"}", "[]", 1,
        T2,
    )
    .unwrap();
    assert_eq!(b.id, a.id);
    assert_eq!(b.name, "Shared v2");
    assert_eq!(b.sort_order, 1);
    assert!(!b.dirty);
    assert_eq!(store.collections.len(), 1);
    // No duplicate mapping: exactly one row carries the remote id.
    let mapped: Vec<_> = store
        .collections
        .iter()
        .filter(|c| c.cloud_id.as_deref() == Some("remote-9"))
        .collect();
    assert_eq!(mapped.len(), 1);
}

#[test]
fn reconcile_request_with_missing_collection_dangles() {
    let mut store = SyncStore::new();
    let r = orchestrator::pull_request(
        &mut store,
        "r1",
        "no-such-collection",
        None,
        "Req",
        "GET",
        "https://example.test",
        "[]",
        "[]",
        "{\"type\":\"none\"}",
        "{\"type\":\"none\"}",
        "[]",
        0,
        T1,
    );
    assert_eq!(r.unwrap_err(), SyncError::DanglingParentReference);
    assert!(store.requests.is_empty());
}

#[test]
fn reconcile_folder_with_missing_parent_folder_dangles() {
    let mut store = SyncStore::new();
    let c1 = collections::create(&mut store, "C", T1).unwrap();
    let r = orchestrator::pull_folder(
        &mut store, "f2", &c1.id, Some("no-such-folder"), "Child", "[]", "{\"type\":\"none\"}",
        "[]", 0, T1,
    );
    assert_eq!(r.unwrap_err(), SyncError::DanglingParentReference);
    assert!(store.folders.is_empty());
}

#[test]
fn pull_request_with_resolved_parents_succeeds() {
    let mut store = SyncStore::new();
    let c1 = collections::create(&mut store, "C", T1).unwrap();
    let f1 = orchestrator::pull_folder(
        &mut store, "f1", &c1.id, None, "F", "[]", "{\"type\":\"none\"}", "[]", 0, T1,
    )
    .unwrap();
    let r = orchestrator::pull_request(
        &mut store,
        "r1",
        &c1.id,
        Some(&f1.id),
        "Req",
        "GET",
        "https://example.test",
        "[]",
        "[]",
        "{\"type\":\"none\"}",
        "{\"type\":\"none\"}",
        "[]",
        2,
        T2,
    )
    .unwrap();
    assert_eq!(r.collection_id, c1.id);
    assert_eq!(r.folder_id, Some(f1.id.clone()));
    assert_eq!(r.cloud_id, Some("r1".to_string()));
    assert_eq!(r.synced_at, Some(T2.to_string()));
    assert!(!r.dirty);
}

#[test]
fn bind_rejects_conflicting_identity() {
    let mut store = SyncStore::new();
    let c1 = collections::create(&mut store, "One", T1).unwrap();
    let c2 = collections::create(&mut store, "Two", T1).unwrap();
    collections::mark_synced(&mut store, &c1.id, "cloud-1", "team-1", T1).unwrap();

    // Rebinding the same local row to a different remote id is refused.
    let e = collections::mark_synced(&mut store, &c1.id, "cloud-other", "team-1", T2);
    assert_eq!(e.unwrap_err(), SyncError::ConflictingIdentity);

    // Binding a second local row to an already-mapped remote id is refused.
    let e = collections::mark_synced(&mut store, &c2.id, "cloud-1", "team-1", T2);
    assert_eq!(e.unwrap_err(), SyncError::ConflictingIdentity);

    // Binding the same pair again is harmless.
    collections::mark_synced(&mut store, &c1.id, "cloud-1", "team-1", T2).unwrap();
    let row = collections::get_by_id(&store, &c1.id).unwrap();
    assert_eq!(row.cloud_id, Some("cloud-1".to_string()));
    assert_eq!(row.synced_at, Some(T2.to_string()));
}

#[test]
fn bind_unknown_id_is_not_found() {
    let mut store = SyncStore::new();
    let e = collections::mark_synced(&mut store, "missing", "cloud-1", "team-1", T1);
    assert_eq!(e.unwrap_err(), SyncError::NotFound);
}

#[test]
fn queue_is_fifo_across_failures() {
    let mut store = SyncStore::new();
    sync::enqueue(
        &mut store,
        EntityKind::Collection,
        "a",
        SyncOperation::Create,
        Some("{}"),
        T1,
    );
    sync::enqueue(&mut store, EntityKind::Collection, "a", SyncOperation::Update, None, T2);
    sync::enqueue(&mut store, EntityKind::Request, "b", SyncOperation::Delete, None, T3);

    let pending = sync::get_pending(&store, 10);
    assert_eq!(pending.len(), 3);
    let second_id = pending[1].id;

    // A failed transmission keeps the entry and its position.
    sync::mark_failed(&mut store, second_id, "network unreachable");
    let pending = sync::get_pending(&store, 10);
    assert_eq!(pending.len(), 3);
    assert_eq!(pending[0].local_id, "a");
    assert_eq!(pending[0].operation, SyncOperation::Create);
    assert_eq!(pending[1].operation, SyncOperation::Update);
    assert_eq!(pending[1].retry_count, 1);
    assert_eq!(pending[1].last_error, Some("network unreachable".to_string()));
    assert_eq!(pending[2].operation, SyncOperation::Delete);
    assert!(pending[0].id < pending[1].id && pending[1].id < pending[2].id);

    // Failing it again keeps counting.
    sync::mark_failed(&mut store, second_id, "timed out");
    let pending = sync::get_pending(&store, 10);
    assert_eq!(pending[1].retry_count, 2);
    assert_eq!(pending[1].last_error, Some("timed out".to_string()));
}

#[test]
fn get_pending_respects_limit() {
    let mut store = SyncStore::new();
    sync::enqueue(&mut store, EntityKind::Folder, "x", SyncOperation::Create, None, T1);
    sync::enqueue(&mut store, EntityKind::Folder, "y", SyncOperation::Create, None, T1);
    sync::enqueue(&mut store, EntityKind::Folder, "z", SyncOperation::Create, None, T1);
    assert_eq!(sync::get_pending(&store, 2).len(), 2);
    assert_eq!(sync::get_pending(&store, 0).len(), 0);
    // A negative limit means no limit.
    assert_eq!(sync::get_pending(&store, -1).len(), 3);
    let two = sync::get_pending(&store, 2);
    assert_eq!(two[0].local_id, "x");
    assert_eq!(two[1].local_id, "y");
}

#[test]
fn cancel_for_removes_queued_work_before_transmission() {
    let mut store = SyncStore::new();
    let c1 = collections::create(&mut store, "A", T1).unwrap();
    sync::enqueue(&mut store, EntityKind::Collection, &c1.id, SyncOperation::Create, None, T1);
    sync::enqueue(&mut store, EntityKind::Collection, "other", SyncOperation::Create, None, T1);

    // The entity is deleted locally before anything was sent.
    collections::delete(&mut store, &c1.id);
    sync::clear_for_item(&mut store, EntityKind::Collection, &c1.id);

    let pending = sync::get_pending(&store, -1);
    assert_eq!(pending.len(), 1);
    assert_eq!(pending[0].local_id, "other");
}

#[test]
fn ack_removes_exactly_one_entry() {
    let mut store = SyncStore::new();
    sync::enqueue(&mut store, EntityKind::Request, "p", SyncOperation::Create, None, T1);
    sync::enqueue(&mut store, EntityKind::Request, "q", SyncOperation::Update, None, T1);
    let pending = sync::get_pending(&store, -1);
    sync::remove(&mut store, pending[0].id);
    let left = sync::get_pending(&store, -1);
    assert_eq!(left.len(), 1);
    assert_eq!(left[0].local_id, "q");
    // Acknowledging an unknown id changes nothing.
    sync::remove(&mut store, 999);
    assert_eq!(sync::get_pending(&store, -1).len(), 1);
}

#[test]
fn list_dirty_groups_by_kind_in_store_order() {
    let mut store = SyncStore::new();
    let c1 = collections::create(&mut store, "C1", T1).unwrap();
    let c2 = collections::create(&mut store, "C2", T1).unwrap();
    collections::mark_synced(&mut store, &c1.id, "cc1", "team-1", T1).unwrap();
    collections::mark_synced(&mut store, &c2.id, "cc2", "team-1", T1).unwrap();
    let f1 = orchestrator::pull_folder(
        &mut store, "ff1", &c1.id, None, "F", "[]", "{\"type\":\"none\"}", "[]", 0, T1,
    )
    .unwrap();

    orchestrator::mark_dirty(&mut store, EntityKind::Collection, &c2.id);
    orchestrator::mark_dirty(&mut store, EntityKind::Collection, &c1.id);
    orchestrator::mark_dirty(&mut store, EntityKind::Folder, &f1.id);

    let dirty = orchestrator::list_dirty(&store);
    assert_eq!(dirty.collections.len(), 2);
    // Store order, not marking order.
    assert_eq!(dirty.collections[0].id, c1.id);
    assert_eq!(dirty.collections[1].id, c2.id);
    assert_eq!(dirty.folders.len(), 1);
    assert_eq!(dirty.folders[0].id, f1.id);
    assert!(dirty.requests.is_empty());
}

#[test]
fn mark_dirty_is_gated_by_the_anchor_per_kind() {
    let mut store = SyncStore::new();
    let c1 = collections::create(&mut store, "C", T1).unwrap();
    let f1 = folders::create(&mut store, &c1.id, "F", None, T1).unwrap();

    orchestrator::mark_dirty(&mut store, EntityKind::Collection, &c1.id);
    orchestrator::mark_dirty(&mut store, EntityKind::Folder, &f1.id);
    assert!(!collections::get_by_id(&store, &c1.id).unwrap().dirty);
    assert!(!folders::get_by_id(&store, &f1.id).unwrap().dirty);

    folders::mark_synced(&mut store, &f1.id, "ff", T1).unwrap();
    orchestrator::mark_dirty(&mut store, EntityKind::Folder, &f1.id);
    assert!(folders::get_by_id(&store, &f1.id).unwrap().dirty);
}

#[test]
fn hard_delete_only_removes_anchored_rows() {
    let mut store = SyncStore::new();
    let c1 = collections::create(&mut store, "Private", T1).unwrap();
    let c2 = collections::create(&mut store, "Shared", T1).unwrap();
    collections::mark_synced(&mut store, &c2.id, "cc2", "team-1", T1).unwrap();

    // A row without an anchor stays: the remote side never knew it.
    let r = orchestrator::hard_delete_synced(&mut store, EntityKind::Collection, &c1.id);
    assert_eq!(r.unwrap(), false);
    assert!(collections::get_by_id(&store, &c1.id).is_ok());

    // An anchored row goes.
    let r = orchestrator::hard_delete_synced(&mut store, EntityKind::Collection, &c2.id);
    assert_eq!(r.unwrap(), true);
    assert!(collections::get_by_id(&store, &c2.id).is_err());

    let r = orchestrator::hard_delete_synced(&mut store, EntityKind::Collection, "missing");
    assert_eq!(r.unwrap_err(), SyncError::NotFound);
}

#[test]
fn table_name_dispatch_is_a_closed_set() {
    assert_eq!(hermes_sync::parse_table_name("collections").unwrap(), EntityKind::Collection);
    assert_eq!(hermes_sync::parse_table_name("folders").unwrap(), EntityKind::Folder);
    assert_eq!(hermes_sync::parse_table_name("requests").unwrap(), EntityKind::Request);
    assert_eq!(
        hermes_sync::parse_table_name("users; DROP TABLE collections").unwrap_err(),
        SyncError::InvalidTableName
    );
    assert_eq!(hermes_sync::table_name(EntityKind::Folder), "folders");
    assert_eq!(
        hermes_sync::parse_operation("update").unwrap(),
        SyncOperation::Update
    );
    assert_eq!(
        hermes_sync::parse_operation("upsert").unwrap_err(),
        SyncError::InvalidTableName
    );
    assert_eq!(hermes_sync::operation_name(SyncOperation::Delete), "delete");
}

#[test]
fn orchestrated_bind_carries_the_team_only_for_collections() {
    let mut store = SyncStore::new();
    let c1 = collections::create(&mut store, "C", T1).unwrap();
    let f1 = folders::create(&mut store, &c1.id, "F", None, T1).unwrap();

    orchestrator::mark_synced(
        &mut store,
        EntityKind::Collection,
        &c1.id,
        "cc1",
        Some("team-1"),
        T2,
    )
    .unwrap();
    let row = collections::get_by_id(&store, &c1.id).unwrap();
    assert_eq!(row.team_id, Some("team-1".to_string()));
    assert_eq!(row.cloud_id, Some("cc1".to_string()));
    assert_eq!(row.synced_at, Some(T2.to_string()));
    assert!(!row.dirty);

    orchestrator::mark_synced(&mut store, EntityKind::Folder, &f1.id, "ff1", None, T2).unwrap();
    let row = folders::get_by_id(&store, &f1.id).unwrap();
    assert_eq!(row.cloud_id, Some("ff1".to_string()));
    assert_eq!(row.synced_at, Some(T2.to_string()));
}

#[test]
fn pull_collection_reconciles_directly() {
    let mut store = SyncStore::new();
    let a = orchestrator::pull_collection(
        &mut store, "remote-1", "team-1", "Pulled", "", "[]", "{\"type\":\"none\"}", "[]", 4, T1,
    )
    .unwrap();
    assert_eq!(a.cloud_id, Some("remote-1".to_string()));
    assert_eq!(a.team_id, Some("team-1".to_string()));
    assert_eq!(a.synced_at, Some(T1.to_string()));
    assert_eq!(a.created_at, T1);
    assert_eq!(a.sort_order, 4);
    assert!(!a.dirty);
}

#[test]
fn error_messages_name_the_failure() {
    assert_eq!(SyncError::NotFound.message(), "record not found");
    assert_eq!(
        SyncError::DanglingParentReference.message(),
        "parent record has not been reconciled yet"
    );
}

#[test]
fn request_update_dirties_only_synced_rows() {
    let mut store = SyncStore::new();
    let c1 = collections::create(&mut store, "C", T1).unwrap();
    let data = requests::CreateRequest {
        collection_id: c1.id.clone(),
        folder_id: None,
        name: "R".to_string(),
        method: "GET".to_string(),
        url: "https://example.test".to_string(),
        headers: "[]".to_string(),
        params: "[]".to_string(),
        body: "{\"type\":\"none\"}".to_string(),
        auth: "{\"type\":\"none\"}".to_string(),
    };
    let r1 = requests::create(&mut store, &data, T1).unwrap();
    let upd = requests::UpdateRequest {
        name: Some("Renamed".to_string()),
        method: None,
        url: None,
        headers: None,
        params: None,
        body: None,
        auth: None,
        variables: None,
    };
    requests::update(&mut store, &r1.id, &upd, T2);
    assert!(!requests::get_by_id(&store, &r1.id).unwrap().dirty);

    requests::mark_synced(&mut store, &r1.id, "rr1", T2).unwrap();
    requests::update(&mut store, &r1.id, &upd, T3);
    let row = requests::get_by_id(&store, &r1.id).unwrap();
    assert!(row.dirty);
    assert_eq!(row.updated_at, T3);
}
