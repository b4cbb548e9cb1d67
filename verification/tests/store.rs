use cairn::clock::{ClockEntry, ClockValue, VectorClock};
use cairn::fact::{Fact, RememberOptions};
use cairn::store::Store;

fn opts_at(t: &str) -> RememberOptions {
    RememberOptions { valid_from: Some(t.to_string()), recorded_at: Some(t.to_string()), ..Default::default() }
}

fn count_of(c: &VectorClock, device: &str) -> Option<i64> {
    match c {
        VectorClock::Entries(es) => es.iter().rev().find(|e| e.device == device).and_then(|e| match e.value {
            ClockValue::Count(n) => Some(n),
            ClockValue::Raw(_) => None,
        }),
        _ => None,
    }
}

#[test]
fn remember_at_records_the_fact() {
    let mut store = Store::new("dev".to_string());
    let id = store
        .remember_at("s", "p", "o", RememberOptions::default(), "2024-01-01T00:00:00Z", "id-1")
        .unwrap();
    assert_eq!(id, "id-1");
    let f = &store.all_facts().unwrap()[0];
    assert_eq!(f.valid_from, "2024-01-01T00:00:00Z");
    assert_eq!(f.recorded_at, "2024-01-01T00:00:00Z");
    assert_eq!(f.confidence, 1_000_000);
    assert_eq!(f.source, "user");
    assert_eq!(f.device_id, "dev");
    assert!(f.valid_until.is_none() && !f.tombstone && f.access_count == 0);
    assert_eq!(count_of(&f.vector_clock, "dev"), Some(1));
}

#[test]
fn remember_with_taken_id_fails() {
    let mut store = Store::new("dev".to_string());
    store.remember_at("s", "p", "o", RememberOptions::default(), "t1", "same").unwrap();
    let r = store.remember_at("s2", "p", "o", RememberOptions::default(), "t2", "same");
    assert_eq!(r, Err("UNIQUE constraint failed: facts.id".to_string()));
    assert_eq!(store.all_facts().unwrap().len(), 1);
}

#[test]
fn remember_closes_at_new_valid_from() {
    let mut store = Store::new("dev".to_string());
    store.remember_at("s", "p", "a", opts_at("2024-01-01T00:00:00Z"), "x", "1").unwrap();
    store.remember_at("s", "p", "b", opts_at("2024-05-01T00:00:00Z"), "x", "2").unwrap();
    let all = store.all_facts().unwrap();
    assert_eq!(all[0].id, "2");
    assert_eq!(all[1].valid_until.as_deref(), Some("2024-05-01T00:00:00Z"));
    let found = store.find_active("s", "p").unwrap();
    assert_eq!(found.object, "b");
    assert!(store.find_active("s", "q").is_none());
}

#[test]
fn reinforcing_bumps_clock_and_keeps_larger_confidence() {
    let mut store = Store::new("dev".to_string());
    store
        .remember_at("s", "p", "o", RememberOptions { confidence: Some(900_000), ..Default::default() }, "t", "1")
        .unwrap();
    let id = store
        .remember_at(
            "s",
            "p",
            "o",
            RememberOptions { confidence: Some(400_000), device_id: Some("phone".to_string()), ..Default::default() },
            "t",
            "2",
        )
        .unwrap();
    assert_eq!(id, "1");
    let all = store.all_facts().unwrap();
    assert_eq!(all.len(), 1);
    assert_eq!(all[0].confidence, 900_000);
    assert_eq!(all[0].access_count, 1);
    assert_eq!(count_of(&all[0].vector_clock, "dev"), Some(1));
    assert_eq!(count_of(&all[0].vector_clock, "phone"), Some(1));
}

#[test]
fn touch_and_tombstone() {
    let mut store = Store::new("dev".to_string());
    store.remember_at("s", "p", "o", RememberOptions::default(), "t", "1").unwrap();
    store.touch_at("1", "2030-01-01T00:00:00Z");
    store.touch("1").unwrap();
    let f = &store.all_facts().unwrap()[0];
    assert_eq!(f.access_count, 2);
    assert!(f.last_accessed.is_some());
    store.tombstone("1", "old").unwrap();
    assert!(store.get_active_facts().unwrap().is_empty());
    let f = &store.all_facts().unwrap()[0];
    assert!(f.tombstone);
    assert_eq!(f.tombstone_reason.as_deref(), Some("old"));
    // unknown ids change nothing
    store.touch_at("nope", "t");
    store.tombstone("nope", "r").unwrap();
    assert_eq!(store.all_facts().unwrap().len(), 1);
}

#[test]
fn close_at_sets_valid_until() {
    let mut store = Store::new("dev".to_string());
    store.remember_at("s", "p", "o", RememberOptions::default(), "t", "1").unwrap();
    store.close_at("1", "t9");
    let f = &store.all_facts().unwrap()[0];
    assert_eq!(f.valid_until.as_deref(), Some("t9"));
    assert!(store.get_active_facts_for("s").unwrap().is_empty());
    assert_eq!(store.get_active_facts().unwrap().len(), 1);
}

#[test]
fn stale_facts_filter() {
    let mut store = Store::new("dev".to_string());
    store
        .remember_at("a", "p", "o", RememberOptions { confidence: Some(500_000), ..Default::default() }, "t", "1")
        .unwrap();
    store
        .remember_at("b", "p", "o", RememberOptions { confidence: Some(900_000), ..Default::default() }, "t", "2")
        .unwrap();
    store
        .remember_at("c", "p", "o", RememberOptions { confidence: Some(100_000), ..Default::default() }, "t", "3")
        .unwrap();
    store.touch_at("3", "2000-06-01T00:00:00Z");
    let stale = store.stale_before("1999-01-01T00:00:00Z", 800_000);
    assert_eq!(stale.len(), 1);
    assert_eq!(stale[0].id, "1");
    let stale = store.stale_before("2001-01-01T00:00:00Z", 800_000);
    assert_eq!(stale.len(), 2);
    assert_eq!(store.get_stale_facts(0, 2_000_000).unwrap().len(), 3);
    assert!(store.get_stale_facts(i64::MAX, 800_000).is_err());
}

#[test]
fn facts_are_newest_first() {
    let mut store = Store::new("dev".to_string());
    store.remember_at("a", "p", "o", opts_at("2024-02-01T00:00:00Z"), "x", "1").unwrap();
    store.remember_at("b", "p", "o", opts_at("2024-03-01T00:00:00Z"), "x", "2").unwrap();
    store.remember_at("c", "p", "o", opts_at("2024-01-01T00:00:00Z"), "x", "3").unwrap();
    store.remember_at("d", "p", "o", opts_at("2024-02-01T00:00:00Z"), "x", "4").unwrap();
    let ids: Vec<String> = store.all_facts().unwrap().into_iter().map(|f| f.id).collect();
    assert_eq!(ids, vec!["2", "1", "4", "3"]);
}

#[test]
fn import_fact_replaces_same_id() {
    let mut store = Store::new("dev".to_string());
    store.remember_at("s", "p", "o", RememberOptions::default(), "t", "1").unwrap();
    let f = Fact {
        id: "1".to_string(),
        subject: "s".to_string(),
        predicate: "p".to_string(),
        object: "new".to_string(),
        valid_from: "t".to_string(),
        valid_until: None,
        recorded_at: "t".to_string(),
        confidence: 300_000,
        source: "sync".to_string(),
        tombstone: false,
        tombstone_reason: None,
        access_count: 7,
        last_accessed: None,
        device_id: "other".to_string(),
        vector_clock: VectorClock::Entries(vec![ClockEntry { device: "other".to_string(), value: ClockValue::Count(3) }]),
    };
    store.import_fact(&f).unwrap();
    let all = store.all_facts().unwrap();
    assert_eq!(all.len(), 1);
    assert_eq!(all[0].object, "new");
    assert_eq!(all[0].access_count, 7);
    assert_eq!(store.device_id(), "dev");
}

#[test]
fn stale_facts_at_a_fixed_clock() {
    let mut store = Store::new("dev".to_string());
    store.remember_at("a", "p", "o", RememberOptions::default(), "t", "1").unwrap();
    store.remember_at("b", "p", "o", RememberOptions::default(), "t", "2").unwrap();
    store.remember_at("c", "p", "o", RememberOptions::default(), "t", "3").unwrap();
    store.touch_at("2", "2023-10-01T00:00:00Z");
    store.touch_at("3", "2023-11-01T00:00:00Z");
    // 1_700_000_000 is 2023-11-14T22:13:20Z; 30 days before is 2023-10-15T22:13:20+00:00
    let stale = store.get_stale_facts_at(1_700_000_000, 0, 30, 2_000_000).unwrap();
    let ids: Vec<&str> = stale.iter().map(|f| f.id.as_str()).collect();
    assert_eq!(ids, vec!["1", "2"]);
    // 10 days before is 2023-11-04T22:13:20+00:00: the November access is stale too
    assert_eq!(store.get_stale_facts_at(1_700_000_000, 0, 10, 2_000_000).unwrap().len(), 3);
    // 60 days before is 2023-09-15T22:13:20+00:00: only the fact never accessed
    let stale = store.get_stale_facts_at(1_700_000_000, 0, 60, 2_000_000).unwrap();
    assert_eq!(stale.len(), 1);
    assert_eq!(stale[0].id, "1");
    assert_eq!(
        store.get_stale_facts_at(1_700_000_000, 0, cairn::store::MAX_DELTA_DAYS + 1, 2_000_000).err(),
        Some("cutoff date out of range".to_string())
    );
    assert!(store.get_stale_facts_at(0, 0, cairn::store::MAX_STALE_DAYS, 2_000_000).is_ok());
    assert!(store.get_stale_facts(30, 2_000_000).is_ok());
    assert!(store.get_stale_facts(cairn::store::MAX_STALE_DAYS, 2_000_000).is_ok());
}

#[test]
fn import_fact_adds_new_id_and_keeps_others() {
    let mut store = Store::new("dev".to_string());
    store.remember_at("s", "p", "o", opts_at("2024-01-01T00:00:00Z"), "x", "1").unwrap();
    store.remember_at("s2", "p", "o", opts_at("2024-03-01T00:00:00Z"), "x", "2").unwrap();
    let mut f = store.all_facts().unwrap()[1].duplicate();
    f.id = "3".to_string();
    f.subject = "s3".to_string();
    f.recorded_at = "2024-02-01T00:00:00Z".to_string();
    store.import_fact(&f).unwrap();
    let all = store.all_facts().unwrap();
    let ids: Vec<&str> = all.iter().map(|f| f.id.as_str()).collect();
    assert_eq!(ids, vec!["2", "3", "1"]);
    assert_eq!(all[1].subject, "s3");
    f.object = "changed".to_string();
    store.import_fact(&f).unwrap();
    let all = store.all_facts().unwrap();
    assert_eq!(all.len(), 3);
    assert_eq!(all.iter().filter(|g| g.id == "3").count(), 1);
    assert_eq!(all[1].object, "changed");
    assert_eq!(all[0].subject, "s2");
    assert_eq!(all[2].subject, "s");
}
