use cairn::clock::VectorClock;
use cairn::fact::{Fact, RememberOptions};
use cairn::store::Store;
use cairn::sync::{export_bundle, import_bundle, import_bundle_at, resolve_conflict, ConflictResolution, SyncBundle};

fn setup() -> Store {
    Store::new("test".to_string())
}

fn fact(id: &str, s: &str, p: &str, o: &str, confidence: u64, recorded_at: &str, device: &str) -> Fact {
    Fact {
        id: id.to_string(),
        subject: s.to_string(),
        predicate: p.to_string(),
        object: o.to_string(),
        valid_from: recorded_at.to_string(),
        valid_until: None,
        recorded_at: recorded_at.to_string(),
        confidence,
        source: "test".to_string(),
        tombstone: false,
        tombstone_reason: None,
        access_count: 0,
        last_accessed: None,
        device_id: device.to_string(),
        vector_clock: VectorClock::Entries(vec![]),
    }
}

fn bundle(facts: Vec<Fact>) -> SyncBundle {
    SyncBundle { device_id: "remote".to_string(), facts, last_sync_counter: 0 }
}

#[test]
fn lib_export_empty_store() {
    let store = setup();
    let bundle = export_bundle(&store).unwrap();
    assert!(bundle.facts.is_empty());

    let store = Store::new(String::new());
    let bundle = export_bundle(&store).unwrap();
    assert_eq!(bundle.facts.len(), 0);
    assert_eq!(bundle.device_id, "local");
}

#[test]
fn lib_export_import_roundtrip() {
    let mut store = setup();
    store.remember("s", "p", "o", RememberOptions::default()).unwrap();
    let bundle = export_bundle(&store).unwrap();
    assert_eq!(bundle.facts.len(), 1);
    let mut store2 = setup();
    let count = import_bundle(&mut store2, &bundle).unwrap();
    assert_eq!(count, 1);
    let active = store2.get_active_facts().unwrap();
    assert_eq!(active.len(), 1);

    let mut store1 = setup();
    let mut store2 = setup();
    store1.remember("a", "knows", "b", RememberOptions::default()).unwrap();
    store1.remember("c", "knows", "d", RememberOptions::default()).unwrap();
    let bundle = export_bundle(&store1).unwrap();
    let count = import_bundle(&mut store2, &bundle).unwrap();
    assert_eq!(count, 2);
    assert_eq!(store2.all_facts().unwrap().len(), 2);
}

#[test]
fn export_with_facts() {
    let mut store = setup();
    store.remember("a", "knows", "b", RememberOptions::default()).unwrap();
    let bundle = export_bundle(&store).unwrap();
    assert_eq!(bundle.facts.len(), 1);
    assert_eq!(bundle.facts[0].subject, "a");
}

#[test]
fn import_empty_bundle() {
    let mut store = setup();
    let count = import_bundle(&mut store, &bundle(vec![])).unwrap();
    assert_eq!(count, 0);
}

#[test]
fn import_new_facts() {
    let mut store = setup();
    let f = fact("test-1", "x", "knows", "y", 1_000_000, "2024-01-01T00:00:00Z", "remote");
    let count = import_bundle(&mut store, &bundle(vec![f])).unwrap();
    assert_eq!(count, 1);
}

#[test]
fn roundtrip_reproduces_the_store() {
    let mut store = setup();
    store.remember("a", "knows", "b", RememberOptions::default()).unwrap();
    store.remember("a", "likes", "c", RememberOptions::default()).unwrap();
    store.remember("d", "knows", "e", RememberOptions::default()).unwrap();
    let bundle = export_bundle(&store).unwrap();
    let mut store2 = Store::new("other".to_string());
    assert_eq!(import_bundle_at(&mut store2, &bundle, "2030-01-01T00:00:00Z").unwrap(), 3);
    let a = store.all_facts().unwrap();
    let b = store2.all_facts().unwrap();
    assert_eq!(a.len(), b.len());
    for (x, y) in a.iter().zip(b.iter()) {
        assert_eq!(x.id, y.id);
        assert_eq!(x.object, y.object);
        assert_eq!(x.access_count, y.access_count);
    }
}

#[test]
fn higher_confidence_wins_and_closes_existing() {
    let mut store = setup();
    let old = fact("e1", "x", "uses", "mac", 500_000, "2024-01-01T00:00:00Z", "a");
    import_bundle(&mut store, &bundle(vec![old])).unwrap();
    let incoming = fact("i1", "x", "uses", "linux", 900_000, "2023-01-01T00:00:00Z", "b");
    match resolve_conflict(&store, &incoming) {
        ConflictResolution::Replace(id) => assert_eq!(id, "e1"),
        _ => panic!("incoming should win"),
    }
    let n = import_bundle(&mut store, &bundle(vec![incoming])).unwrap();
    assert_eq!(n, 1);
    let open = store.get_active_facts_for("x").unwrap();
    assert_eq!(open.len(), 1);
    assert_eq!(open[0].object, "linux");
    let all = store.all_facts().unwrap();
    let closed = all.iter().find(|f| f.id == "e1").unwrap();
    assert_eq!(closed.valid_until.as_deref(), Some("2023-01-01T00:00:00Z"));
}

#[test]
fn ties_go_to_later_time_then_greater_device() {
    let mut store = setup();
    let old = fact("e1", "x", "uses", "mac", 500_000, "2024-01-01T00:00:00Z", "b");
    import_bundle(&mut store, &bundle(vec![old])).unwrap();
    let later = fact("i1", "x", "uses", "linux", 500_000, "2024-02-01T00:00:00Z", "a");
    assert!(matches!(resolve_conflict(&store, &later), ConflictResolution::Replace(_)));
    let earlier = fact("i2", "x", "uses", "linux", 500_000, "2023-02-01T00:00:00Z", "z");
    assert!(matches!(resolve_conflict(&store, &earlier), ConflictResolution::Skip(_)));
    let same_time_greater_device = fact("i3", "x", "uses", "bsd", 500_000, "2024-01-01T00:00:00Z", "c");
    assert!(matches!(resolve_conflict(&store, &same_time_greater_device), ConflictResolution::Replace(_)));
    let same_time_smaller_device = fact("i4", "x", "uses", "bsd", 500_000, "2024-01-01T00:00:00Z", "a");
    assert!(matches!(resolve_conflict(&store, &same_time_smaller_device), ConflictResolution::Skip(_)));
    let same_object = fact("i5", "x", "uses", "mac", 400_000, "2025-01-01T00:00:00Z", "z");
    assert!(matches!(resolve_conflict(&store, &same_object), ConflictResolution::Merge(_)));
}

#[test]
fn existing_winner_is_touched() {
    let mut store = setup();
    let old = fact("e1", "x", "uses", "mac", 900_000, "2024-01-01T00:00:00Z", "a");
    import_bundle(&mut store, &bundle(vec![old])).unwrap();
    let loser = fact("i1", "x", "uses", "linux", 100_000, "2024-01-01T00:00:00Z", "a");
    let n = import_bundle_at(&mut store, &bundle(vec![loser]), "2030-01-01T00:00:00Z").unwrap();
    assert_eq!(n, 0);
    let all = store.all_facts().unwrap();
    assert_eq!(all.len(), 1);
    assert_eq!(all[0].access_count, 1);
    assert_eq!(all[0].last_accessed.as_deref(), Some("2030-01-01T00:00:00Z"));
    let same = fact("i2", "x", "uses", "mac", 100_000, "2024-01-01T00:00:00Z", "a");
    assert_eq!(import_bundle(&mut store, &bundle(vec![same])).unwrap(), 1);
    assert_eq!(store.all_facts().unwrap()[0].access_count, 2);
}
