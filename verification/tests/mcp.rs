use cairn::fact::{Fact, RememberOptions};
use cairn::mcp::{
    dispatch, handle_export, handle_forget, handle_import, handle_recall, handle_remember, list_tools,
    route_method, unknown_method_message, ImportFacts, McpMethod, ToolArgs, ToolReply,
};
use cairn::store::Store;

fn args() -> ToolArgs {
    ToolArgs::default()
}

fn s(x: &str) -> Option<String> {
    Some(x.to_string())
}

#[test]
fn remember_requires_each_field_in_order() {
    let mut store = Store::new("dev".to_string());
    assert_eq!(handle_remember(&mut store, &args()), Err("missing subject".to_string()));
    let a = ToolArgs { subject: s("x"), ..args() };
    assert_eq!(handle_remember(&mut store, &a), Err("missing predicate".to_string()));
    let a = ToolArgs { subject: s("x"), predicate: s("p"), ..args() };
    assert_eq!(handle_remember(&mut store, &a), Err("missing object".to_string()));
    assert!(store.all_facts().unwrap().is_empty());
    let a = ToolArgs { subject: s("x"), predicate: s("p"), object: s("o"), confidence: Some(700_000), source: s("agent"), ..args() };
    let id = handle_remember(&mut store, &a).unwrap();
    let f = &store.all_facts().unwrap()[0];
    assert_eq!(f.id, id);
    assert_eq!(f.confidence, 700_000);
    assert_eq!(f.source, "agent");
}

#[test]
fn recall_defaults_and_aliases() {
    let mut store = Store::new("dev".to_string());
    store.remember("tamish", "uses_os", "linux", RememberOptions::default()).unwrap();
    assert!(matches!(handle_recall(&mut store, &args()), Err(e) if e == "missing query"));
    let a = ToolArgs { query: s("tamish"), ..args() };
    let r = handle_recall(&mut store, &a).unwrap();
    assert_eq!(r.facts.len(), 1);
    for name in ["cairn", "recall"] {
        match dispatch(&mut store, name, &a) {
            Ok(ToolReply::Recalled(q)) => assert_eq!(q.entry_points, vec!["tamish", "linux"]),
            _ => panic!("recall expected"),
        }
    }
}

#[test]
fn forget_plan_uses_protection_bound() {
    let mut store = Store::new("dev".to_string());
    store.remember("a", "b", "c", RememberOptions { confidence: Some(100_000), ..Default::default() }).unwrap();
    store.remember("d", "e", "f", RememberOptions::default()).unwrap();
    let plan = handle_forget(&store, &ToolArgs { older_than_days: Some(0), dry_run: Some(true), ..args() }).unwrap();
    assert_eq!(plan.options.min_confidence, Some(800_000));
    assert!(plan.options.dry_run && !plan.options.force);
    assert_eq!(plan.candidates.len(), 1);
    assert_eq!(plan.candidates[0].subject, "a");
    let plan = handle_forget(&store, &ToolArgs { older_than_days: Some(0), force: Some(true), ..args() }).unwrap();
    assert_eq!(plan.candidates.len(), 2);
}

#[test]
fn export_and_import_tools() {
    let mut store = Store::new("dev".to_string());
    store.remember("a", "b", "c", RememberOptions::default()).unwrap();
    let facts: Vec<Fact> = handle_export(&store).unwrap();
    assert_eq!(facts.len(), 1);

    let mut other = Store::new("dev2".to_string());
    assert_eq!(handle_import(&mut other, &args()), Err("missing facts array".to_string()));
    assert_eq!(
        handle_import(&mut other, &ToolArgs { facts: ImportFacts::NotArray, ..args() }),
        Err("facts must be an array".to_string())
    );
    let items: Vec<Result<Fact, String>> = facts.into_iter().map(Ok).collect();
    assert_eq!(handle_import(&mut other, &ToolArgs { facts: ImportFacts::Items(items), ..args() }), Ok(1));
    assert_eq!(other.all_facts().unwrap().len(), 1);

    let mut third = Store::new("dev3".to_string());
    let first = handle_export(&store).unwrap().into_iter().next().unwrap();
    let items = vec![Ok(first), Err("bad fact".to_string())];
    assert_eq!(
        handle_import(&mut third, &ToolArgs { facts: ImportFacts::Items(items), ..args() }),
        Err("bad fact".to_string())
    );
    // the fact before the bad one stays imported
    assert_eq!(third.all_facts().unwrap().len(), 1);
}

#[test]
fn extract_tool_stores_facts() {
    let mut store = Store::new("dev".to_string());
    let a = ToolArgs { text: s("my name is damir and i use linux"), ..args() };
    match dispatch(&mut store, "extract", &a) {
        Ok(ToolReply::Extracted(n, stored)) => {
            assert_eq!(n, 2);
            assert_eq!(stored, 2);
        },
        _ => panic!("extract expected"),
    }
    let facts = store.get_active_facts_for("user").unwrap();
    assert_eq!(facts.len(), 2);
    assert!(facts.iter().all(|f| f.source == "inferred"));
    assert!(matches!(dispatch(&mut store, "extract", &args()), Err(e) if e == "missing text"));
}

#[test]
fn unknown_tool_and_methods() {
    let mut store = Store::new("dev".to_string());
    assert!(matches!(dispatch(&mut store, "fly", &args()), Err(e) if e == "unknown tool: fly"));
    assert!(matches!(dispatch(&mut store, "export_memory", &args()), Ok(ToolReply::Exported(v)) if v.is_empty()));
    assert!(matches!(route_method("initialize"), McpMethod::Initialize));
    assert!(matches!(route_method("tools/list"), McpMethod::ListTools));
    assert!(matches!(route_method("tools/call"), McpMethod::CallTool));
    assert!(matches!(route_method("ping"), McpMethod::Unknown));
    assert_eq!(unknown_method_message("ping"), "unknown method: ping");
}

#[test]
fn listed_tools_are_dispatched() {
    let tools = list_tools();
    let names: Vec<&str> = tools.iter().map(|t| t.name.as_str()).collect();
    assert_eq!(names, vec!["remember", "cairn", "forget", "export_memory", "import_memory", "extract", "recall"]);
    assert!(tools.iter().all(|t| t.schema_type == "object"));
    assert_eq!(tools[6].params.len(), tools[1].params.len());
    assert!(tools[3].description.contains("active"));
    assert_eq!(tools[0].required.as_ref().unwrap(), &vec!["subject", "predicate", "object"]);
    assert!(tools[2].required.is_none() && tools[3].params.is_empty());
    assert_eq!(tools[1].params[1].name, "depth");
    assert_eq!(tools[1].params[1].kind, "integer");
    for name in names {
        let mut store = Store::new("dev".to_string());
        match dispatch(&mut store, name, &args()) {
            Err(e) => assert!(!e.starts_with("unknown tool")),
            Ok(_) => {},
        }
    }
}

#[test]
fn export_leaves_out_tombstoned_facts() {
    let mut store = Store::new("dev".to_string());
    let gone = store.remember("a", "b", "c", RememberOptions::default()).unwrap();
    store.remember("d", "e", "f", RememberOptions::default()).unwrap();
    store.tombstone(&gone, "old").unwrap();
    let facts = handle_export(&store).unwrap();
    assert_eq!(facts.len(), 1);
    assert!(facts.iter().all(|f| f.id != gone));
}

#[test]
fn only_listed_names_are_dispatched() {
    let listed: Vec<String> = list_tools().into_iter().map(|t| t.name).collect();
    for name in ["remember", "cairn", "recall", "forget", "export_memory", "import_memory", "extract", "Recall", "", "tools"] {
        let mut store = Store::new("dev".to_string());
        let unknown = matches!(dispatch(&mut store, name, &args()), Err(e) if e == format!("unknown tool: {}", name));
        assert_eq!(unknown, !listed.iter().any(|n| n == name));
    }
}
