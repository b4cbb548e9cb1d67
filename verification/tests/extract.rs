use cairn::extract::{extract_from_text, facts_from_captures, trim_at_stop_words, ExtractedFact};

fn has(facts: &[ExtractedFact], predicate: &str, object: &str) -> bool {
    facts.iter().any(|f| f.predicate == predicate && f.object == object)
}

fn millionths(x: u64) -> f64 {
    x as f64 / 1_000_000.0
}

#[test]
fn extract_name() {
    let facts = extract_from_text("my name is tamish", Some("user"));
    assert!(facts.iter().any(|f| f.predicate == "name" && f.object == "tamish"));
}

#[test]
fn extract_uses() {
    let facts = extract_from_text("i use linux", Some("user"));
    assert!(facts.iter().any(|f| f.predicate == "uses" && f.object == "linux"));
}

#[test]
fn extract_works_at() {
    let facts = extract_from_text("i work at valtors", Some("user"));
    assert!(facts.iter().any(|f| f.predicate == "works_at" && f.object == "valtors"));
}

#[test]
fn extract_lives_in() {
    let facts = extract_from_text("i live in bangalore", Some("user"));
    assert!(facts.iter().any(|f| f.predicate == "lives_in" && f.object == "bangalore"));
}

#[test]
fn extract_dislikes() {
    let facts = extract_from_text("i hate bugs", Some("user"));
    assert!(facts.iter().any(|f| f.predicate == "dislikes" && f.object == "bugs"));
}

#[test]
fn extract_prefers_lower_confidence() {
    let facts = extract_from_text("i prefer vim", Some("user"));
    let pref = facts.iter().find(|f| f.predicate == "prefers");
    assert!(pref.is_some());
    assert_eq!(millionths(pref.unwrap().confidence), 0.6);
}

#[test]
fn extract_default_subject() {
    let facts = extract_from_text("i use rust", None);
    assert!(facts.iter().all(|f| f.subject == "user"));
}

#[test]
fn extract_empty_text() {
    let facts = extract_from_text("", Some("user"));
    assert!(facts.is_empty());
}

#[test]
fn extract_no_match() {
    let facts = extract_from_text("the weather is nice today", Some("user"));
    assert!(facts.is_empty());
}

#[test]
fn trim_at_stop_words_basic() {
    let result = trim_at_stop_words("linux and windows", &["and", "but", "or"]);
    assert_eq!(result, "linux");
}

#[test]
fn trim_at_stop_words_no_stop() {
    let result = trim_at_stop_words("rust go", &["and", "but"]);
    assert_eq!(result, "rust go");
}

#[test]
fn extract_multiple_facts() {
    let facts = extract_from_text(
        "my name is damir and i use linux and i live in bangalore",
        Some("user"),
    );
    assert!(facts.len() >= 2);
}

#[test]
fn extract_patterns_from_text() {
    let facts = extract_from_text("my name is damir and i use linux", Some("user"));
    assert!(facts.iter().any(|f| f.predicate == "name" && f.object == "damir"));
    assert!(facts.iter().any(|f| f.predicate == "uses" && f.object == "linux"));
}

#[test]
fn extract_with_context() {
    let facts = extract_from_text("i work at juice dev and i live in bangalore", Some("user"));
    assert!(facts.iter().any(|f| f.predicate == "works_at" && f.object == "juice dev"));
    assert!(facts.iter().any(|f| f.predicate == "lives_in" && f.object == "bangalore"));
}

#[test]
fn extract_lowercases_before_matching() {
    let facts = extract_from_text("My Name Is Tamish", Some("tamish"));
    assert!(has(&facts, "name", "tamish"));
    assert!(facts.iter().all(|f| f.subject == "tamish" && f.source == "inferred"));
}

#[test]
fn extract_favorite_joins_both_groups() {
    let facts = extract_from_text("my favorite editor is neovim", None);
    let fav = facts.iter().find(|f| f.predicate == "favorite").unwrap();
    assert_eq!(fav.object, "editor: neovim");
    assert_eq!(fav.confidence, 800_000);
}

#[test]
fn extract_every_rule_confidence() {
    let facts = extract_from_text("i use vim. i like tea. i hate rain. i work at acme", None);
    let conf = |p: &str| facts.iter().find(|f| f.predicate == p).unwrap().confidence;
    assert_eq!(conf("uses"), 1_000_000);
    assert_eq!(conf("prefers"), 600_000);
    assert_eq!(conf("dislikes"), 700_000);
    assert_eq!(conf("works_at"), 1_000_000);
}

#[test]
fn extract_drops_objects_longer_than_fifty() {
    // 51 characters after "i use "
    let long = format!("i use {}", "a".repeat(51));
    assert!(!has(&extract_from_text(&long, None), "uses", &"a".repeat(51)));
    let fifty = format!("i use {}", "a".repeat(50));
    assert!(has(&extract_from_text(&fifty, None), "uses", &"a".repeat(50)));
}

#[test]
fn trim_at_stop_words_first_word_is_stop() {
    assert_eq!(trim_at_stop_words("and then", &["and"]), "");
    assert_eq!(trim_at_stop_words("  spaced   out  words ", &[]), "spaced out words");
}

#[test]
fn facts_from_captures_exact() {
    let caps = vec![
        vec![Some("i use linux and mac".to_string()), Some("linux and mac".to_string())],
        vec![Some("i use x".to_string()), None],
        vec![Some("i use and".to_string()), Some("and".to_string())],
    ];
    let facts = facts_from_captures("me", "uses", 1_000_000, &caps);
    assert_eq!(facts.len(), 1);
    assert_eq!(facts[0].subject, "me");
    assert_eq!(facts[0].object, "linux");
    assert_eq!(facts[0].source, "inferred");
    let fav = vec![vec![
        Some("my favorite tea is green".to_string()),
        Some(" tea ".to_string()),
        Some("green and".to_string()),
    ]];
    let facts = facts_from_captures("me", "favorite", 800_000, &fav);
    assert_eq!(facts[0].object, "tea: green and");
}

#[test]
fn trim_at_stop_words_is_idempotent() {
    let stops = ["and", "but", "or"];
    let r = trim_at_stop_words("  linux  mint and windows or mac", &stops);
    assert_eq!(r, "linux mint");
    assert_eq!(trim_at_stop_words(&r, &stops), r);
    assert!(r.split_whitespace().all(|w| !stops.contains(&w)));
}
