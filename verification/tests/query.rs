use cairn::fact::RememberOptions;
use cairn::query::{find_entry_points, query, query_at, relevance_score, QueryOptions};
use cairn::store::Store;
use cairn::traverse::traverse;

fn store_with(triples: &[(&str, &str, &str)]) -> Store {
    let mut store = Store::new("dev".to_string());
    for (i, (s, p, o)) in triples.iter().enumerate() {
        let t = format!("2024-01-{:02}T00:00:00Z", i + 1);
        store
            .remember_at(
                s,
                p,
                o,
                RememberOptions { valid_from: Some(t.clone()), recorded_at: Some(t), ..Default::default() },
                "2024-06-01T00:00:00Z",
                &format!("id{}", i),
            )
            .unwrap();
    }
    store
}

#[test]
fn entry_points_exact() {
    let store = store_with(&[("tamish", "uses_os", "linux")]);
    let facts = store.get_active_facts().unwrap();
    assert_eq!(find_entry_points(&facts, "what os does tamish use"), vec!["tamish", "linux"]);
    // lowercasing applies to the query too
    assert_eq!(find_entry_points(&facts, "TAMISH"), vec!["tamish", "linux"]);
    assert!(find_entry_points(&facts, "nothing here").is_empty());
}

#[test]
fn entry_points_ties_keep_first_appearance() {
    let store = store_with(&[("x", "p", "y"), ("z", "p", "w")]);
    // newest first: (z p w), then (x p y)
    let facts = store.get_active_facts().unwrap();
    assert_eq!(find_entry_points(&facts, "p"), vec!["z", "x", "w", "y"]);
}

#[test]
fn entry_points_at_most_ten() {
    let triples: Vec<(String, String, String)> =
        (0..12).map(|i| (format!("s{}", i), "rel".to_string(), format!("o{}", i))).collect();
    let refs: Vec<(&str, &str, &str)> = triples.iter().map(|(a, b, c)| (a.as_str(), b.as_str(), c.as_str())).collect();
    let store = store_with(&refs);
    let facts = store.get_active_facts().unwrap();
    let eps = find_entry_points(&facts, "rel");
    assert_eq!(eps.len(), 10);
    assert!(eps.iter().all(|e| e.starts_with('s')));
}

#[test]
fn relevance_exact() {
    let store = store_with(&[("tamish", "uses_os", "linux")]);
    let f = &store.get_active_facts().unwrap()[0];
    let eps = vec!["tamish".to_string()];
    // 0.4 * 2.0 + 0.3 + 0.3 * 1.0 = 1.4
    assert_eq!(relevance_score(f, "what os does tamish use", &eps), 14_000_000);
    // 0.3 * 1.0 only
    assert_eq!(relevance_score(f, "zzz", &[]), 3_000_000);
}

#[test]
fn query_ranks_limits_and_touches() {
    let mut store = store_with(&[("tamish", "uses_os", "linux"), ("tamish", "name", "tamish"), ("linux", "is", "free")]);
    let res = query_at(
        &mut store,
        "tamish linux",
        QueryOptions { depth: 2, as_of: None, limit: 2, min_confidence: 0 },
        "2030-01-01T00:00:00Z",
    )
    .unwrap();
    assert_eq!(res.facts.len(), 2);
    assert!(res.facts[0].score >= res.facts[1].score);
    for f in store.all_facts().unwrap() {
        if res.facts.iter().any(|n| n.id == f.id) {
            assert_eq!(f.access_count, 1);
            assert_eq!(f.last_accessed.as_deref(), Some("2030-01-01T00:00:00Z"));
        } else {
            assert_eq!(f.access_count, 0);
            assert!(f.last_accessed.is_none());
        }
    }
    assert_eq!(res.facts[0].object, "tamish");
    assert_eq!(res.facts[1].object, "linux");
    assert_eq!(res.facts[0].score, 14_000_000);
}

#[test]
fn query_filters_by_confidence() {
    let mut store = Store::new("dev".to_string());
    store
        .remember("a", "knows", "b", RememberOptions { confidence: Some(300_000), ..Default::default() })
        .unwrap();
    store.remember("a", "likes", "c", RememberOptions::default()).unwrap();
    let res = query(&mut store, "a", QueryOptions { min_confidence: 500_000, ..QueryOptions::default() }).unwrap();
    assert_eq!(res.facts.len(), 1);
    assert_eq!(res.facts[0].object, "c");
}

#[test]
fn query_without_entry_points_is_empty() {
    let mut store = store_with(&[("a", "b", "c")]);
    let res = query(&mut store, "zzz", QueryOptions::default()).unwrap();
    assert!(res.facts.is_empty() && res.entry_points.is_empty());
    assert_eq!(store.all_facts().unwrap()[0].access_count, 0);
}

#[test]
fn query_depth_is_capped_at_five() {
    let chain: Vec<(String, String, String)> =
        (0..8).map(|i| (format!("n{}", i), "next".to_string(), format!("n{}", i + 1))).collect();
    let refs: Vec<(&str, &str, &str)> = chain.iter().map(|(a, b, c)| (a.as_str(), b.as_str(), c.as_str())).collect();
    let mut store = store_with(&refs);
    let res = query(&mut store, "n0", QueryOptions { depth: 50, ..QueryOptions::default() }).unwrap();
    // entry point n0 (and its object n1); five levels reach subjects n0..n5
    let subjects: Vec<&str> = res.facts.iter().map(|f| f.subject.as_str()).collect();
    assert!(subjects.contains(&"n5"));
    assert!(!subjects.contains(&"n6"));
}

#[test]
fn traverse_as_of_and_hops() {
    let mut store = Store::new("dev".to_string());
    let at = |t: &str| RememberOptions { valid_from: Some(t.to_string()), recorded_at: Some(t.to_string()), ..Default::default() };
    store.remember_at("a", "p", "b", at("2024-01-01T00:00:00Z"), "x", "1").unwrap();
    store.remember_at("a", "p", "c", at("2024-03-01T00:00:00Z"), "x", "2").unwrap();
    store.remember_at("b", "q", "d", at("2024-01-02T00:00:00Z"), "x", "3").unwrap();
    let now = traverse(&store, &["a".to_string()], 2, None).unwrap();
    let objs: Vec<&str> = now.facts.iter().map(|f| f.object.as_str()).collect();
    assert_eq!(objs, vec!["c"]);
    let then = traverse(&store, &["a".to_string()], 2, Some("2024-02-01T00:00:00Z")).unwrap();
    let objs: Vec<&str> = then.facts.iter().map(|f| f.object.as_str()).collect();
    assert_eq!(objs, vec!["d", "b"]);
    assert_eq!(then.hops.len(), 2);
    assert_eq!(then.hops[0], ("a".to_string(), "p".to_string()));
    assert_eq!(then.hops[1], ("b".to_string(), "q".to_string()));
    assert!(then.hops.iter().any(|(s, p)| s == "a" && p == "p"));
    assert!(traverse(&store, &["a".to_string()], 0, None).unwrap().facts.is_empty());
}
