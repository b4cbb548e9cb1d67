use cairn::fact::{Fact, RememberOptions};
use cairn::forget::{forget_candidates, max_confidence, run, DecayVerdict, ForgetOptions, ForgetResult};
use cairn::store::Store;

fn test_store() -> Store {
    Store::new("test".to_string())
}

/// The decay score of a fact as the forget tool computes it:
/// confidence * 1 / (1 + days since last access) * ln(access count + 1).
fn decay_score(fact: &Fact) -> f64 {
    let confidence = fact.confidence as f64 / 1_000_000.0;
    let now = chrono::Utc::now();
    let last = fact
        .last_accessed
        .as_ref()
        .and_then(|s| chrono::DateTime::parse_from_rfc3339(s).ok())
        .map(|d| d.with_timezone(&chrono::Utc))
        .unwrap_or(now);
    let days_since = (now - last).num_days().max(0) as f64;
    let access_factor = (fact.access_count as f64 + 1.0).ln();
    confidence * (1.0 / (1.0 + days_since)) * access_factor
}

fn verdicts(candidates: &[Fact]) -> Vec<DecayVerdict> {
    candidates
        .iter()
        .map(|f| {
            let score = decay_score(f);
            DecayVerdict {
                decayed: score < 0.1,
                score: format!("{:.3}", score),
                confidence: format!("{:.2}", f.confidence as f64 / 1_000_000.0),
            }
        })
        .collect()
}

fn run_forget(store: &mut Store, opts: ForgetOptions) -> Result<ForgetResult, String> {
    let candidates = forget_candidates(store, &opts)?;
    let v = verdicts(&candidates);
    Ok(run(store, &opts, &candidates, &v))
}

fn remember_conf(store: &mut Store, s: &str, p: &str, o: &str, confidence: u64, source: Option<&str>) {
    store
        .remember(
            s,
            p,
            o,
            RememberOptions {
                confidence: Some(confidence),
                source: source.map(|x| x.to_string()),
                ..Default::default()
            },
        )
        .unwrap();
}

#[test]
fn forget_low_confidence() {
    let mut store = test_store();
    remember_conf(&mut store, "s", "p", "o", 200_000, Some("inferred"));
    let result = run_forget(
        &mut store,
        ForgetOptions { min_confidence: Some(800_000), older_than_days: Some(0), dry_run: false, force: false },
    )
    .unwrap();
    assert!(!result.forgotten.is_empty());
}

#[test]
fn forget_dry_run() {
    let mut store = test_store();
    remember_conf(&mut store, "s", "p", "o", 200_000, Some("inferred"));
    let result = run_forget(
        &mut store,
        ForgetOptions { min_confidence: Some(800_000), older_than_days: Some(0), dry_run: true, force: false },
    )
    .unwrap();
    assert!(!result.forgotten.is_empty());
    let active = store.get_active_facts().unwrap();
    assert!(!active.is_empty());
}

#[test]
fn lib_forget_protects_high_confidence() {
    let mut store = test_store();
    remember_conf(&mut store, "s", "p", "o", 1_000_000, None);
    let result = run_forget(
        &mut store,
        ForgetOptions { min_confidence: Some(800_000), older_than_days: Some(0), dry_run: false, force: false },
    )
    .unwrap();
    assert!(result.forgotten.is_empty());
}

#[test]
fn forget_tombstones_low_confidence() {
    let mut store = test_store();
    remember_conf(&mut store, "user", "prefers", "dark mode", 300_000, Some("inferred"));
    let result = run_forget(
        &mut store,
        ForgetOptions { older_than_days: Some(0), min_confidence: Some(800_000), dry_run: false, force: false },
    )
    .unwrap();
    assert!(!result.forgotten.is_empty());
    let active = store.get_active_facts().unwrap();
    let found = active.iter().any(|f| f.object == "dark mode");
    assert!(!found);
}

#[test]
fn integration_forget_protects_high_confidence() {
    let mut store = test_store();
    remember_conf(&mut store, "tamish", "name", "tamish", 1_000_000, None);
    let result = run_forget(
        &mut store,
        ForgetOptions { older_than_days: Some(0), min_confidence: Some(800_000), dry_run: false, force: false },
    )
    .unwrap();
    assert!(result.forgotten.is_empty());
    let active = store.get_active_facts().unwrap();
    assert!(!active.is_empty());
}

#[test]
fn forget_default_options() {
    let o = ForgetOptions::default();
    assert_eq!(o.older_than_days, Some(30));
    assert_eq!(o.min_confidence, Some(800_000));
    assert!(!o.dry_run && !o.force);
    assert_eq!(max_confidence(&o), 800_000);
    assert_eq!(max_confidence(&ForgetOptions { force: true, ..ForgetOptions::default() }), 2_000_000);
    assert_eq!(max_confidence(&ForgetOptions { min_confidence: None, ..ForgetOptions::default() }), 800_000);
}

#[test]
fn forget_force_reaches_confident_facts() {
    let mut store = test_store();
    remember_conf(&mut store, "tamish", "name", "tamish", 1_000_000, None);
    let result = run_forget(
        &mut store,
        ForgetOptions { older_than_days: Some(0), min_confidence: Some(800_000), dry_run: false, force: true },
    )
    .unwrap();
    assert_eq!(result.forgotten.len(), 1);
    assert_eq!(result.kept, 0);
    let all = store.all_facts().unwrap();
    assert!(all[0].tombstone);
    assert_eq!(all[0].tombstone_reason.as_deref(), Some("decay=0.000"));
    assert_eq!(result.reasons[0].1, "decay=0.000 conf=1.00");
}

#[test]
fn forget_keeps_what_did_not_decay() {
    let mut store = test_store();
    remember_conf(&mut store, "a", "p", "x", 200_000, None);
    remember_conf(&mut store, "b", "p", "y", 300_000, None);
    let opts = ForgetOptions { older_than_days: Some(0), min_confidence: Some(800_000), dry_run: false, force: false };
    let candidates = forget_candidates(&store, &opts).unwrap();
    assert_eq!(candidates.len(), 2);
    let v: Vec<DecayVerdict> = candidates
        .iter()
        .map(|f| DecayVerdict { decayed: f.subject == "a", score: "0.010".to_string(), confidence: "0.20".to_string() })
        .collect();
    let result = run(&mut store, &opts, &candidates, &v);
    assert_eq!(result.forgotten.len(), 1);
    assert_eq!(result.kept, 1);
    assert_eq!(result.reasons.len(), 1);
    assert_eq!(result.reasons[0].1, "decay=0.010 conf=0.20");
    let gone = store.all_facts().unwrap().into_iter().find(|f| f.subject == "a").unwrap();
    assert_eq!(gone.tombstone_reason.as_deref(), Some("decay=0.010"));
    let active = store.get_active_facts().unwrap();
    assert_eq!(active.len(), 1);
    assert_eq!(active[0].subject, "b");
    // the forgotten fact stays for audit
    assert_eq!(store.all_facts().unwrap().len(), 2);
}

#[test]
fn forget_candidates_cutoff_range() {
    let store = test_store();
    let zero = ForgetOptions { older_than_days: Some(0), ..ForgetOptions::default() };
    assert!(forget_candidates(&store, &zero).is_ok());
    let beyond = ForgetOptions { older_than_days: Some(cairn::store::MAX_DELTA_DAYS + 1), ..ForgetOptions::default() };
    assert_eq!(forget_candidates(&store, &beyond).err(), Some("cutoff date out of range".to_string()));
    let below = ForgetOptions { older_than_days: Some(-cairn::store::MAX_DELTA_DAYS - 1), ..ForgetOptions::default() };
    assert!(forget_candidates(&store, &below).is_err());
    assert!(store.get_stale_facts(i64::MIN, 800_000).is_err());
}

#[test]
fn forget_never_takes_confident_facts_even_with_higher_bound() {
    let mut store = test_store();
    remember_conf(&mut store, "s", "p", "o", 850_000, None);
    let opts = ForgetOptions { older_than_days: Some(0), min_confidence: Some(900_000), dry_run: false, force: false };
    assert_eq!(max_confidence(&opts), 800_000);
    let result = run_forget(&mut store, opts).unwrap();
    assert!(result.forgotten.is_empty());
    assert!(!store.all_facts().unwrap()[0].tombstone);
    // a lower bound protects more
    remember_conf(&mut store, "t", "p", "o", 600_000, None);
    let lower = ForgetOptions { older_than_days: Some(0), min_confidence: Some(500_000), dry_run: false, force: false };
    assert!(run_forget(&mut store, lower).unwrap().forgotten.is_empty());
}

#[test]
fn forget_candidates_default_days_succeed() {
    let store = test_store();
    assert!(forget_candidates(&store, &ForgetOptions::default()).is_ok());
    let far = ForgetOptions { older_than_days: Some(cairn::store::MAX_STALE_DAYS), ..ForgetOptions::default() };
    assert!(forget_candidates(&store, &far).is_ok());
}
