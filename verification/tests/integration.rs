use cairn::fact::RememberOptions;
use cairn::query::{query, QueryOptions};
use cairn::store::Store;
use cairn::sync::{export_bundle, import_bundle};

fn tmp_store() -> Store {
    Store::new("test-device".to_string())
}

#[test]
fn remember_and_recall() {
    let mut store = tmp_store();

    let id = store.remember("tamish", "uses_os", "linux", RememberOptions::default()).unwrap();
    assert!(!id.is_empty());

    let result = query(&mut store, "what os does tamish use", QueryOptions::default()).unwrap();
    assert!(!result.facts.is_empty());
    assert_eq!(result.facts[0].subject, "tamish");
    assert_eq!(result.facts[0].object, "linux");
}

#[test]
fn contradiction_closes_old_fact_not_deletes() {
    let mut store = tmp_store();

    store.remember("tamish", "uses_os", "macos", RememberOptions::default()).unwrap();
    store.remember("tamish", "uses_os", "linux", RememberOptions::default()).unwrap();

    let active = store.get_active_facts_for("tamish").unwrap();
    assert_eq!(active.len(), 1);
    assert_eq!(active[0].object, "linux");

    let all = store.all_facts().unwrap();
    assert_eq!(all.len(), 2);
    let macos_fact = all.iter().find(|f| f.object == "macos").unwrap();
    assert!(macos_fact.valid_until.is_some());
}

#[test]
fn point_in_time_query() {
    let mut store = tmp_store();

    let old_time = "2024-01-01T00:00:00Z".to_string();
    store
        .remember(
            "tamish",
            "uses_os",
            "macos",
            RememberOptions { valid_from: Some(old_time.clone()), recorded_at: Some(old_time.clone()), ..Default::default() },
        )
        .unwrap();

    let new_time = "2025-07-15T00:00:00Z".to_string();
    store
        .remember(
            "tamish",
            "uses_os",
            "linux",
            RememberOptions { valid_from: Some(new_time.clone()), recorded_at: Some(new_time.clone()), ..Default::default() },
        )
        .unwrap();

    let facts_2024 = store.facts_as_of("2024-06-01T00:00:00Z").unwrap();
    let os_facts: Vec<_> = facts_2024.iter().filter(|f| f.predicate == "uses_os").collect();
    assert_eq!(os_facts.len(), 1);
    assert_eq!(os_facts[0].object, "macos");

    let facts_2025 = store.facts_as_of("2025-08-01T00:00:00Z").unwrap();
    let os_facts: Vec<_> = facts_2025.iter().filter(|f| f.predicate == "uses_os").collect();
    assert_eq!(os_facts.len(), 1);
    assert_eq!(os_facts[0].object, "linux");
}

#[test]
fn same_fact_updates_confidence_not_duplicates() {
    let mut store = tmp_store();

    store
        .remember("tamish", "name", "tamish", RememberOptions { confidence: Some(500_000), ..Default::default() })
        .unwrap();
    store
        .remember("tamish", "name", "tamish", RememberOptions { confidence: Some(1_000_000), ..Default::default() })
        .unwrap();

    let active = store.get_active_facts_for("tamish").unwrap();
    assert_eq!(active.len(), 1);
    assert_eq!(active[0].confidence as f64 / 1_000_000.0, 1.0);
    assert!(active[0].access_count > 0);
}

#[test]
fn integration_export_import_roundtrip() {
    let mut store = tmp_store();

    store.remember("tamish", "uses_os", "linux", RememberOptions::default()).unwrap();
    store.remember("tamish", "name", "tamish", RememberOptions::default()).unwrap();

    let bundle = export_bundle(&store).unwrap();
    assert_eq!(bundle.facts.len(), 2);

    let mut store2 = tmp_store();
    let imported = import_bundle(&mut store2, &bundle).unwrap();
    assert_eq!(imported, 2);

    let result = query(&mut store2, "what os does tamish use", QueryOptions::default()).unwrap();
    assert!(!result.facts.is_empty());
    let os_fact = result.facts.iter().find(|f| f.predicate == "uses_os");
    assert!(os_fact.is_some());
    assert_eq!(os_fact.unwrap().object, "linux");
}

#[test]
fn graph_traversal_follows_objects() {
    let mut store = tmp_store();

    store.remember("tamish", "works_at", "valtors", RememberOptions::default()).unwrap();
    store.remember("valtors", "builds", "cairn", RememberOptions::default()).unwrap();
    store.remember("cairn", "is", "memory store", RememberOptions::default()).unwrap();

    let result = query(&mut store, "tamish", QueryOptions { depth: 3, ..Default::default() }).unwrap();

    let objects: Vec<&str> = result.facts.iter().map(|f| f.object.as_str()).collect();
    assert!(objects.contains(&"valtors"));
    assert!(objects.contains(&"cairn"));
    assert!(objects.contains(&"memory store"));
}
