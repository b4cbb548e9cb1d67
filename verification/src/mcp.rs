//! The tools an agent calls over MCP: remember, recall (also named cairn),
//! forget, export_memory, import_memory and extract, and the routing of
//! JSON-RPC methods.
//!
//! The arguments arrive already read out of the request, one optional field
//! per argument; a missing argument with a default takes it, a missing
//! required one is an error named after it. Replies are plain values that
//! the server turns into JSON.

use vstd::prelude::*;
use crate::fact::{Fact, FactView, facts_view, opt_view, RememberOptions, RememberOptionsView};
use crate::store::{
    Store, StoreView, Sel, pred_of, result_view, remember_result, import_result, days_representable,
    cutoff_error, stale_outcome, MAX_TIMESTAMP, MAX_STALE_DAYS,
};
use crate::query::{QueryOptions, QueryResult, query, query_nodes, query_entry_points, touch_all, node_ids, nodes_view};
use crate::forget::{ForgetOptions, forget_candidates, bound_of, days_of, DEFAULT_MIN_CONFIDENCE};
use crate::extract::{ExtractedView, extract_from_text, extraction, extracted_view};
use crate::traverse::strings_view;
use crate::text::{owned, concat, str_eq};
use crate::time::{now_rfc3339, new_fact_id, days_before};

verus! {

/// The `facts` argument of import_memory.
pub enum ImportFacts {
    Missing,
    NotArray,
    /// Each element, read as a fact or the reason it could not be.
    Items(Vec<Result<Fact, String>>),
}

/// The arguments of a tool call.
pub struct ToolArgs {
    pub subject: Option<String>,
    pub predicate: Option<String>,
    pub object: Option<String>,
    /// In millionths.
    pub confidence: Option<u64>,
    pub source: Option<String>,
    pub query: Option<String>,
    pub depth: Option<usize>,
    pub limit: Option<usize>,
    pub as_of: Option<String>,
    /// In millionths.
    pub min_confidence: Option<u64>,
    pub older_than_days: Option<i64>,
    pub dry_run: Option<bool>,
    pub force: Option<bool>,
    pub facts: ImportFacts,
    pub text: Option<String>,
    pub user_name: Option<String>,
}

impl Default for ToolArgs {
    fn default() -> (r: Self)
        ensures
            r.subject is None,
            r.predicate is None,
            r.object is None,
            r.confidence is None,
            r.source is None,
            r.query is None,
            r.depth is None,
            r.limit is None,
            r.as_of is None,
            r.min_confidence is None,
            r.older_than_days is None,
            r.dry_run is None,
            r.force is None,
            r.facts is Missing,
            r.text is None,
            r.user_name is None,
    {
        ToolArgs {
            subject: None,
            predicate: None,
            object: None,
            confidence: None,
            source: None,
            query: None,
            depth: None,
            limit: None,
            as_of: None,
            min_confidence: None,
            older_than_days: None,
            dry_run: None,
            force: None,
            facts: ImportFacts::Missing,
            text: None,
            user_name: None,
        }
    }
}

fn opt_str(o: &Option<String>) -> (r: Option<&str>)
    ensures
        match r {
            Some(s) => o matches Some(t) && s@ == t@,
            None => o is None,
        },
{
    match o {
        Some(s) => Some(s.as_str()),
        None => None,
    }
}

// ---------------------------------------------------------------- remember

/// The options remember is called with: the given confidence and source.
pub open spec fn remember_opts(args: ToolArgs) -> RememberOptionsView {
    RememberOptionsView {
        valid_from: None,
        recorded_at: None,
        confidence: args.confidence,
        source: opt_view(args.source),
        device_id: None,
    }
}

/// remember: subject, predicate and object are required (checked in that
/// order); the fact is remembered with the given confidence and source, and
/// its id returned.
pub open spec fn remember_outcome(before: StoreView, after: StoreView, args: ToolArgs, r: Result<Seq<char>, Seq<char>>) -> bool {
    if args.subject is None {
        r == Err::<Seq<char>, Seq<char>>("missing subject"@) && after == before
    } else if args.predicate is None {
        r == Err::<Seq<char>, Seq<char>>("missing predicate"@) && after == before
    } else if args.object is None {
        r == Err::<Seq<char>, Seq<char>>("missing object"@) && after == before
    } else {
        &&& after.device_id == before.device_id
        &&& exists|now: Seq<char>, id: Seq<char>|
            id.len() == 36 && (after.facts, r) == #[trigger] remember_result(
                before.facts,
                before.device_id,
                args.subject->0@,
                args.predicate->0@,
                args.object->0@,
                remember_opts(args),
                now,
                id,
            )
    }
}

pub fn handle_remember(store: &mut Store, args: &ToolArgs) -> (r: Result<String, String>)
    requires
        old(store).wf(),
    ensures
        final(store).wf(),
        remember_outcome(old(store)@, final(store)@, *args, result_view(r)),
{
    let subject = match &args.subject {
        Some(s) => s,
        None => {
            return Err(owned("missing subject"));
        },
    };
    let predicate = match &args.predicate {
        Some(s) => s,
        None => {
            return Err(owned("missing predicate"));
        },
    };
    let object = match &args.object {
        Some(s) => s,
        None => {
            return Err(owned("missing object"));
        },
    };
    let source = match &args.source {
        Some(s) => Some(s.clone()),
        None => None,
    };
    let opts = RememberOptions {
        valid_from: None,
        recorded_at: None,
        confidence: args.confidence,
        source,
        device_id: None,
    };
    assert(opts@ == remember_opts(*args));
    store.remember(subject.as_str(), predicate.as_str(), object.as_str(), opts)
}

// ------------------------------------------------------------------ recall

/// The query options of recall: depth 2, limit 50 and minimum confidence 0
/// unless given.
pub open spec fn recall_depth(args: ToolArgs) -> usize {
    match args.depth {
        Some(d) => d,
        None => 2,
    }
}

pub open spec fn recall_limit(args: ToolArgs) -> usize {
    match args.limit {
        Some(l) => l,
        None => 50,
    }
}

pub open spec fn recall_min_confidence(args: ToolArgs) -> u64 {
    match args.min_confidence {
        Some(c) => c,
        None => 0,
    }
}

/// recall: the query is required; the result is that of `query` with the
/// options of the arguments.
pub open spec fn recall_outcome(before: StoreView, after: StoreView, args: ToolArgs, r: Result<QueryResult, String>) -> bool {
    if args.query is None {
        r matches Err(e) && e@ == "missing query"@ && after == before
    } else {
        let q = args.query->0@;
        let nodes = query_nodes(
            before.facts,
            q,
            recall_depth(args),
            opt_view(args.as_of),
            recall_limit(args),
            recall_min_confidence(args),
        );
        &&& after.device_id == before.device_id
        &&& r matches Ok(res)
        &&& nodes_view(res.facts@) == nodes
        &&& strings_view(res.entry_points@) == query_entry_points(before.facts, q)
        &&& exists|now: Seq<char>| after.facts == #[trigger] touch_all(before.facts, node_ids(nodes), now)
    }
}

pub fn handle_recall(store: &mut Store, args: &ToolArgs) -> (r: Result<QueryResult, String>)
    requires
        old(store).wf(),
    ensures
        final(store).wf(),
        recall_outcome(old(store)@, final(store)@, *args, r),
{
    let q = match &args.query {
        Some(s) => s,
        None => {
            return Err(owned("missing query"));
        },
    };
    let depth: usize = match args.depth {
        Some(d) => d,
        None => 2,
    };
    let limit: usize = match args.limit {
        Some(l) => l,
        None => 50,
    };
    let min_confidence: u64 = match args.min_confidence {
        Some(c) => c,
        None => 0,
    };
    let as_of = match &args.as_of {
        Some(s) => Some(s.clone()),
        None => None,
    };
    let opts = QueryOptions { depth, as_of, limit, min_confidence };
    query(store, q.as_str(), opts)
}

// ------------------------------------------------------------------ forget

/// A forget run in progress: the options and the stale candidates. The
/// caller judges each candidate's decay and finishes with `forget::run`.
pub struct ForgetPlan {
    pub options: ForgetOptions,
    pub candidates: Vec<Fact>,
}

/// forget: the given number of days (30 when none), the 0.8 confidence
/// bound, and no dry run and no force unless asked.
pub open spec fn forget_options_of(args: ToolArgs, o: ForgetOptions) -> bool {
    &&& o.older_than_days == args.older_than_days
    &&& o.min_confidence == Some(DEFAULT_MIN_CONFIDENCE)
    &&& o.dry_run == (args.dry_run == Some(true))
    &&& o.force == (args.force == Some(true))
}

/// The forget call at the clock reading `secs` seconds and `nanos`
/// nanoseconds after the Unix epoch: the plan holds the stale facts at the
/// cutoff `days_before` names for that reading and the asked number of
/// days, or the call fails with the cutoff error when there is no such
/// cutoff.
pub open spec fn forget_at(store: StoreView, args: ToolArgs, secs: i64, nanos: u32, r: Result<ForgetPlan, String>) -> bool {
    match days_before(secs, nanos, days_of(args.older_than_days)) {
        Some(cutoff) => r matches Ok(p) && forget_options_of(args, p.options) && facts_view(p.candidates@)
            == store.facts.filter(
            pred_of(Sel::Stale(cutoff, bound_of(Some(DEFAULT_MIN_CONFIDENCE), args.force == Some(true)))),
        ),
        None => r matches Err(e) && e@ == cutoff_error(),
    }
}

/// `forget_at` some clock reading in chrono's range; the call succeeds for
/// every number of days from 0 to `MAX_STALE_DAYS` and fails for every
/// number beyond `days_representable`.
pub open spec fn forget_outcome(store: StoreView, args: ToolArgs, r: Result<ForgetPlan, String>) -> bool {
    &&& exists|secs: i64, nanos: u32|
        0 <= secs <= MAX_TIMESTAMP && nanos < 1_000_000_000 && #[trigger] forget_at(store, args, secs, nanos, r)
    &&& r matches Err(e) ==> e@ == cutoff_error()
    &&& 0 <= days_of(args.older_than_days) <= MAX_STALE_DAYS ==> r is Ok
    &&& !days_representable(days_of(args.older_than_days)) ==> r is Err
}

pub fn handle_forget(store: &Store, args: &ToolArgs) -> (r: Result<ForgetPlan, String>)
    ensures
        forget_outcome(store@, *args, r),
{
    let options = ForgetOptions {
        older_than_days: args.older_than_days,
        min_confidence: Some(DEFAULT_MIN_CONFIDENCE),
        dry_run: match args.dry_run {
            Some(b) => b,
            None => false,
        },
        force: match args.force {
            Some(b) => b,
            None => false,
        },
    };
    let found = forget_candidates(store, &options);
    let ghost (secs, nanos) = choose|secs: i64, nanos: u32|
        0 <= secs <= MAX_TIMESTAMP && nanos < 1_000_000_000 && #[trigger] stale_outcome(
            store@.facts,
            secs,
            nanos,
            days_of(options.older_than_days),
            bound_of(options.min_confidence, options.force),
            found,
        );
    let r = match found {
        Ok(candidates) => Ok(ForgetPlan { options, candidates }),
        Err(e) => Err(e),
    };
    assert(forget_at(store@, *args, secs, nanos, r));
    r
}

// ------------------------------------------------------------------ export

/// export_memory: every active (not tombstoned) fact, newest first;
/// closed facts are included.
pub fn handle_export(store: &Store) -> (r: Result<Vec<Fact>, String>)
    ensures
        r matches Ok(v) && facts_view(v@) == store@.facts.filter(pred_of(Sel::Active)),
{
    store.get_active_facts()
}

// ------------------------------------------------------------------ import

pub open spec fn item_view(i: Result<Fact, String>) -> Result<FactView, Seq<char>> {
    match i {
        Ok(f) => Ok(f@),
        Err(e) => Err(e@),
    }
}

pub open spec fn items_view(v: Seq<Result<Fact, String>>) -> Seq<Result<FactView, Seq<char>>> {
    v.map_values(|i: Result<Fact, String>| item_view(i))
}

/// Import the items in order, each replacing any fact with its id, until
/// one could not be read: then its reason is the error (the items before it
/// stay imported). Otherwise the count of items.
pub open spec fn import_items(fs: Seq<FactView>, items: Seq<Result<FactView, Seq<char>>>) -> (Seq<FactView>, Result<
    nat,
    Seq<char>,
>)
    decreases items.len(),
{
    if items.len() == 0 {
        (fs, Ok(0))
    } else {
        let prev = import_items(fs, items.drop_last());
        match prev.1 {
            Err(e) => prev,
            Ok(n) => match items.last() {
                Err(e) => (prev.0, Err(e)),
                Ok(f) => (import_result(prev.0, f), Ok(n + 1)),
            },
        }
    }
}

pub open spec fn count_view(r: Result<usize, String>) -> Result<nat, Seq<char>> {
    match r {
        Ok(n) => Ok(n as nat),
        Err(e) => Err(e@),
    }
}

/// import_memory: `facts` is required and must be an array.
pub open spec fn import_outcome(before: StoreView, after: StoreView, args: ToolArgs, r: Result<nat, Seq<char>>) -> bool {
    match args.facts {
        ImportFacts::Missing => r == Err::<nat, Seq<char>>("missing facts array"@) && after == before,
        ImportFacts::NotArray => r == Err::<nat, Seq<char>>("facts must be an array"@) && after == before,
        ImportFacts::Items(items) => {
            let res = import_items(before.facts, items_view(items@));
            after.device_id == before.device_id && after.facts == res.0 && r == res.1
        },
    }
}

pub fn handle_import(store: &mut Store, args: &ToolArgs) -> (r: Result<usize, String>)
    requires
        old(store).wf(),
    ensures
        final(store).wf(),
        import_outcome(old(store)@, final(store)@, *args, count_view(r)),
{
    let items = match &args.facts {
        ImportFacts::Missing => {
            return Err(owned("missing facts array"));
        },
        ImportFacts::NotArray => {
            return Err(owned("facts must be an array"));
        },
        ImportFacts::Items(v) => v,
    };
    let ghost iv = items_view(items@);
    let ghost fs0 = store@.facts;
    let mut imported: usize = 0;
    let mut i: usize = 0;
    while i < items.len()
        invariant
            iv == items_view(items@),
            args.facts == ImportFacts::Items(*items),
            fs0 == old(store)@.facts,
            i <= items.len(),
            imported == i,
            store.wf(),
            store@.device_id == old(store)@.device_id,
            import_items(fs0, iv.take(i as int)) == (store@.facts, Ok::<nat, Seq<char>>(i as nat)),
        decreases items.len() - i,
    {
        assert(iv.take(i + 1).drop_last() =~= iv.take(i as int));
        assert(iv.take(i + 1).last() == item_view(items@[i as int]));
        match &items[i] {
            Err(e) => {
                assert(import_items(fs0, iv.take(i + 1)) == (store@.facts, Err::<nat, Seq<char>>(e@)));
                proof {
                    lemma_import_items_stops(fs0, iv, i as int + 1);
                }
                let msg = e.clone();
                assert(msg@ == e@);
                assert(args.facts == ImportFacts::Items(*items));
                return Err(msg);
            },
            Ok(f) => {
                let _ = store.import_fact(f);
                imported = imported + 1;
            },
        }
        i = i + 1;
    }
    assert(iv.take(i as int) =~= iv);
    Ok(imported)
}

proof fn lemma_import_items_stops(fs: Seq<FactView>, items: Seq<Result<FactView, Seq<char>>>, k: int)
    requires
        0 <= k <= items.len(),
        import_items(fs, items.take(k)).1 is Err,
    ensures
        import_items(fs, items) == import_items(fs, items.take(k)),
    decreases items.len() - k,
{
    if k < items.len() {
        assert(items.take(k + 1).drop_last() =~= items.take(k));
        lemma_import_items_stops(fs, items, k + 1);
    } else {
        assert(items.take(k) =~= items);
    }
}

// ----------------------------------------------------------------- extract

/// The options an extracted fact is remembered with: its confidence and
/// source.
pub open spec fn extracted_opts(f: ExtractedView) -> RememberOptionsView {
    RememberOptionsView {
        valid_from: None,
        recorded_at: None,
        confidence: Some(f.confidence),
        source: Some(f.source),
        device_id: None,
    }
}

/// Remember each extracted fact in turn, the k-th at moment `nows[k]` with
/// fresh id `ids[k]`, until one fails; the count of facts stored, or the
/// first error.
pub open spec fn remember_all(
    fs: Seq<FactView>,
    device: Seq<char>,
    ex: Seq<ExtractedView>,
    nows: Seq<Seq<char>>,
    ids: Seq<Seq<char>>,
) -> (Seq<FactView>, Result<nat, Seq<char>>)
    decreases ex.len(),
{
    if ex.len() == 0 || nows.len() != ex.len() || ids.len() != ex.len() {
        (fs, Ok(0))
    } else {
        let prev = remember_all(fs, device, ex.drop_last(), nows.drop_last(), ids.drop_last());
        match prev.1 {
            Err(e) => prev,
            Ok(n) => {
                let f = ex.last();
                let step = remember_result(
                    prev.0,
                    device,
                    f.subject,
                    f.predicate,
                    f.object,
                    extracted_opts(f),
                    nows.last(),
                    ids.last(),
                );
                match step.1 {
                    Ok(_) => (step.0, Ok(n + 1)),
                    Err(e) => (step.0, Err(e)),
                }
            },
        }
    }
}

pub open spec fn pair_view(r: Result<(usize, usize), String>) -> Result<(nat, nat), Seq<char>> {
    match r {
        Ok(p) => Ok((p.0 as nat, p.1 as nat)),
        Err(e) => Err(e@),
    }
}

/// extract: `text` is required; the facts extracted from it (about
/// `user_name`, default "user") are remembered in turn. The reply is the
/// number extracted and the number stored, or the first error.
pub open spec fn extract_outcome(before: StoreView, after: StoreView, args: ToolArgs, r: Result<(nat, nat), Seq<char>>) -> bool {
    if args.text is None {
        r == Err::<(nat, nat), Seq<char>>("missing text"@) && after == before
    } else {
        let ex = extraction(args.text->0@, opt_view(args.user_name));
        &&& after.device_id == before.device_id
        &&& exists|nows: Seq<Seq<char>>, ids: Seq<Seq<char>>|
            {
                let res = #[trigger] remember_all(before.facts, before.device_id, ex, nows, ids);
                &&& nows.len() == ex.len()
                &&& ids.len() == ex.len()
                &&& after.facts == res.0
                &&& match res.1 {
                    Ok(n) => r == Ok::<(nat, nat), Seq<char>>((ex.len(), n)),
                    Err(e) => r == Err::<(nat, nat), Seq<char>>(e),
                }
            }
    }
}

pub fn handle_extract(store: &mut Store, args: &ToolArgs) -> (r: Result<(usize, usize), String>)
    requires
        old(store).wf(),
    ensures
        final(store).wf(),
        extract_outcome(old(store)@, final(store)@, *args, pair_view(r)),
{
    let text = match &args.text {
        Some(t) => t,
        None => {
            return Err(owned("missing text"));
        },
    };
    let extracted = extract_from_text(text.as_str(), opt_str(&args.user_name));
    let ghost ex = extracted_view(extracted@);
    assert(ex == extraction(text@, opt_view(args.user_name)));
    let ghost fs0 = store@.facts;
    let ghost device = store@.device_id;
    let ghost mut nows: Seq<Seq<char>> = seq![];
    let ghost mut ids: Seq<Seq<char>> = seq![];
    let mut stored: usize = 0;
    let mut i: usize = 0;
    while i < extracted.len()
        invariant
            ex == extracted_view(extracted@),
            ex == extraction(text@, opt_view(args.user_name)),
            args.text == Some(*text),
            fs0 == old(store)@.facts,
            device == old(store)@.device_id,
            i <= extracted.len(),
            stored == i,
            nows.len() == i,
            ids.len() == i,
            store.wf(),
            store@.device_id == device,
            remember_all(fs0, device, ex.take(i as int), nows, ids) == (store@.facts, Ok::<nat, Seq<char>>(i as nat)),
        decreases extracted.len() - i,
    {
        let f = &extracted[i];
        assert(ex.take(i + 1).drop_last() =~= ex.take(i as int));
        assert(ex.take(i + 1).last() == f@);
        let opts = RememberOptions {
            valid_from: None,
            recorded_at: None,
            confidence: Some(f.confidence),
            source: Some(f.source.clone()),
            device_id: None,
        };
        assert(opts@ == extracted_opts(f@));
        let now = now_rfc3339();
        let id = new_fact_id();
        let ghost before = store@.facts;
        let res = store.remember_at(f.subject.as_str(), f.predicate.as_str(), f.object.as_str(), opts, now.as_str(), id.as_str());
        let ghost old_nows = nows;
        let ghost old_ids = ids;
        proof {
            nows = nows.push(now@);
            ids = ids.push(id@);
            assert(nows.drop_last() =~= old_nows);
            assert(ids.drop_last() =~= old_ids);
            let step = remember_result(before, device, f@.subject, f@.predicate, f@.object, extracted_opts(f@), now@, id@);
            assert(step == (store@.facts, result_view(res)));
            assert(remember_all(fs0, device, ex.take(i + 1), nows, ids) == (step.0, match step.1 {
                Ok(_) => Ok::<nat, Seq<char>>(i as nat + 1),
                Err(e) => Err(e),
            }));
        }
        match res {
            Err(e) => {
                proof {
                    lemma_remember_all_stops(fs0, device, ex, nows, ids, i as int + 1);
                    let (ns, is) = choose|ns: Seq<Seq<char>>, is: Seq<Seq<char>>|
                        ns.len() == ex.len() && is.len() == ex.len() && #[trigger] remember_all(fs0, device, ex, ns, is)
                            == remember_all(fs0, device, ex.take(i + 1), nows, ids);
                    assert(remember_all(fs0, device, ex, ns, is) == (store@.facts, Err::<nat, Seq<char>>(e@)));
                }
                return Err(e);
            },
            Ok(_) => {},
        }
        stored = stored + 1;
        i = i + 1;
    }
    assert(ex.take(i as int) =~= ex);
    Ok((extracted.len(), stored))
}

proof fn lemma_remember_all_stops(
    fs: Seq<FactView>,
    device: Seq<char>,
    ex: Seq<ExtractedView>,
    nows: Seq<Seq<char>>,
    ids: Seq<Seq<char>>,
    k: int,
)
    requires
        0 <= k <= ex.len(),
        nows.len() == k,
        ids.len() == k,
        remember_all(fs, device, ex.take(k), nows, ids).1 is Err,
    ensures
        exists|ns: Seq<Seq<char>>, is: Seq<Seq<char>>|
            ns.len() == ex.len() && is.len() == ex.len() && #[trigger] remember_all(fs, device, ex, ns, is)
                == remember_all(fs, device, ex.take(k), nows, ids),
    decreases ex.len() - k,
{
    if k < ex.len() {
        let ns = nows.push(seq![]);
        let is = ids.push(seq![]);
        assert(ex.take(k + 1).drop_last() =~= ex.take(k));
        assert(ns.drop_last() =~= nows);
        assert(is.drop_last() =~= ids);
        lemma_remember_all_stops(fs, device, ex, ns, is, k + 1);
    } else {
        assert(ex.take(k) =~= ex);
    }
}

// ---------------------------------------------------------------- dispatch

pub enum Tool {
    Remember,
    Recall,
    Forget,
    Export,
    Import,
    Extract,
}

/// The tool a name calls: "cairn" and "recall" both name recall.
pub open spec fn tool_of(name: Seq<char>) -> Option<Tool> {
    if name == "remember"@ {
        Some(Tool::Remember)
    } else if name == "cairn"@ || name == "recall"@ {
        Some(Tool::Recall)
    } else if name == "forget"@ {
        Some(Tool::Forget)
    } else if name == "export_memory"@ {
        Some(Tool::Export)
    } else if name == "import_memory"@ {
        Some(Tool::Import)
    } else if name == "extract"@ {
        Some(Tool::Extract)
    } else {
        None
    }
}

/// What a tool call answers.
pub enum ToolReply {
    /// The id of the remembered fact.
    Remembered(String),
    Recalled(QueryResult),
    /// The forget run to finish with `forget::run`.
    Forget(ForgetPlan),
    Exported(Vec<Fact>),
    Imported(usize),
    /// (facts extracted, facts stored).
    Extracted(usize, usize),
}

/// The reply, had the call been routed to `tool`, in the shape of that
/// tool's handler; `None` when the reply is of another tool.
pub open spec fn as_remembered(r: Result<ToolReply, String>) -> Option<Result<Seq<char>, Seq<char>>> {
    match r {
        Ok(ToolReply::Remembered(id)) => Some(Ok(id@)),
        Err(e) => Some(Err(e@)),
        _ => None,
    }
}

pub open spec fn as_recalled(r: Result<ToolReply, String>) -> Option<Result<QueryResult, String>> {
    match r {
        Ok(ToolReply::Recalled(q)) => Some(Ok(q)),
        Err(e) => Some(Err(e)),
        _ => None,
    }
}

pub open spec fn as_forget(r: Result<ToolReply, String>) -> Option<Result<ForgetPlan, String>> {
    match r {
        Ok(ToolReply::Forget(p)) => Some(Ok(p)),
        Err(e) => Some(Err(e)),
        _ => None,
    }
}

pub open spec fn as_imported(r: Result<ToolReply, String>) -> Option<Result<nat, Seq<char>>> {
    match r {
        Ok(ToolReply::Imported(n)) => Some(Ok(n as nat)),
        Err(e) => Some(Err(e@)),
        _ => None,
    }
}

pub open spec fn as_extracted(r: Result<ToolReply, String>) -> Option<Result<(nat, nat), Seq<char>>> {
    match r {
        Ok(ToolReply::Extracted(a, b)) => Some(Ok((a as nat, b as nat))),
        Err(e) => Some(Err(e@)),
        _ => None,
    }
}

/// What `dispatch` answers to the name `tool`, from the store `before` to
/// the store `after`: the outcome of the tool the name calls, or, for a name
/// that calls none, the error "unknown tool: NAME" with nothing changed.
pub open spec fn dispatch_outcome(
    before: StoreView,
    after: StoreView,
    tool: Seq<char>,
    args: ToolArgs,
    r: Result<ToolReply, String>,
) -> bool {
    match tool_of(tool) {
        None => r matches Err(e) && e@ == unknown_tool_error(tool) && after == before,
        Some(Tool::Remember) => as_remembered(r) matches Some(x) && remember_outcome(before, after, args, x),
        Some(Tool::Recall) => as_recalled(r) matches Some(x) && recall_outcome(before, after, args, x),
        Some(Tool::Forget) => as_forget(r) matches Some(x) && forget_outcome(before, args, x) && after == before,
        Some(Tool::Export) => r matches Ok(ToolReply::Exported(v)) && facts_view(v@) == before.facts.filter(
            pred_of(Sel::Active),
        ) && after == before,
        Some(Tool::Import) => as_imported(r) matches Some(x) && import_outcome(before, after, args, x),
        Some(Tool::Extract) => as_extracted(r) matches Some(x) && extract_outcome(before, after, args, x),
    }
}

/// The error a name that calls no tool is answered.
pub open spec fn unknown_tool_error(tool: Seq<char>) -> Seq<char> {
    "unknown tool: "@ + tool
}

/// The reply is the one `tool`'s handler gives, or an error.
pub open spec fn routed_to(tool: Tool, r: Result<ToolReply, String>) -> bool {
    match tool {
        Tool::Remember => as_remembered(r) is Some,
        Tool::Recall => as_recalled(r) is Some,
        Tool::Forget => as_forget(r) is Some,
        Tool::Export => r matches Ok(ToolReply::Exported(_)),
        Tool::Import => as_imported(r) is Some,
        Tool::Extract => as_extracted(r) is Some,
    }
}

/// Call the tool `tool` names with `args`; an unknown name is an error
/// "unknown tool: NAME" and changes nothing.
pub fn dispatch(store: &mut Store, tool: &str, args: &ToolArgs) -> (r: Result<ToolReply, String>)
    requires
        old(store).wf(),
    ensures
        final(store).wf(),
        dispatch_outcome(old(store)@, final(store)@, tool@, *args, r),
{
    proof {
        reveal_strlit("remember");
        reveal_strlit("cairn");
        reveal_strlit("recall");
        reveal_strlit("forget");
        reveal_strlit("export_memory");
        reveal_strlit("import_memory");
        reveal_strlit("extract");
    }
    if str_eq(tool, "remember") {
        match handle_remember(store, args) {
            Ok(id) => Ok(ToolReply::Remembered(id)),
            Err(e) => Err(e),
        }
    } else if str_eq(tool, "cairn") || str_eq(tool, "recall") {
        match handle_recall(store, args) {
            Ok(q) => Ok(ToolReply::Recalled(q)),
            Err(e) => Err(e),
        }
    } else if str_eq(tool, "forget") {
        match handle_forget(store, args) {
            Ok(p) => Ok(ToolReply::Forget(p)),
            Err(e) => Err(e),
        }
    } else if str_eq(tool, "export_memory") {
        match handle_export(store) {
            Ok(v) => Ok(ToolReply::Exported(v)),
            Err(e) => Err(e),
        }
    } else if str_eq(tool, "import_memory") {
        match handle_import(store, args) {
            Ok(n) => Ok(ToolReply::Imported(n)),
            Err(e) => Err(e),
        }
    } else if str_eq(tool, "extract") {
        match handle_extract(store, args) {
            Ok((a, b)) => Ok(ToolReply::Extracted(a, b)),
            Err(e) => Err(e),
        }
    } else {
        Err(concat("unknown tool: ", tool))
    }
}

// ----------------------------------------------------------------- methods

/// The JSON-RPC methods the server answers.
pub enum McpMethod {
    Initialize,
    ListTools,
    CallTool,
    Unknown,
}

pub open spec fn method_of(name: Seq<char>) -> McpMethod {
    if name == "initialize"@ {
        McpMethod::Initialize
    } else if name == "tools/list"@ {
        McpMethod::ListTools
    } else if name == "tools/call"@ {
        McpMethod::CallTool
    } else {
        McpMethod::Unknown
    }
}

/// Which JSON-RPC method a request names.
pub fn route_method(method: &str) -> (r: McpMethod)
    ensures
        r == method_of(method@),
{
    if str_eq(method, "initialize") {
        McpMethod::Initialize
    } else if str_eq(method, "tools/list") {
        McpMethod::ListTools
    } else if str_eq(method, "tools/call") {
        McpMethod::CallTool
    } else {
        McpMethod::Unknown
    }
}

/// JSON-RPC error code of a tool that failed.
pub const TOOL_ERROR_CODE: i64 = -32603;

/// JSON-RPC error code of an unknown method.
pub const UNKNOWN_METHOD_CODE: i64 = -32601;

/// The message answered to an unknown method.
pub fn unknown_method_message(method: &str) -> (r: String)
    ensures
        r@ == "unknown method: "@ + method@,
{
    concat("unknown method: ", method)
}

// ------------------------------------------------------------------- tools

/// One argument of a tool, as its input schema lists it.
pub struct ParamSpec {
    pub name: String,
    /// The JSON type: "string", "integer", "number", "boolean" or "array".
    pub kind: String,
    pub description: String,
}

/// A tool as the server lists it.
pub struct ToolSpec {
    pub name: String,
    /// The JSON type of the input schema: always "object".
    pub schema_type: String,
    pub description: String,
    pub params: Vec<ParamSpec>,
    /// The required arguments, when the schema names any list of them.
    pub required: Option<Vec<String>>,
}

pub open spec fn tool_names(v: Seq<ToolSpec>) -> Seq<Seq<char>> {
    v.map_values(|t: ToolSpec| t.name@)
}

/// Some tool of the list calls `t`.
pub open spec fn listed(v: Seq<ToolSpec>, t: Tool) -> bool {
    exists|i: int| 0 <= i < v.len() && #[trigger] tool_of(v[i].name@) == Some(t)
}

fn param(name: &str, kind: &str, description: &str) -> (r: ParamSpec)
    ensures
        r.name@ == name@,
        r.kind@ == kind@,
        r.description@ == description@,
{
    ParamSpec { name: owned(name), kind: owned(kind), description: owned(description) }
}

fn names(v: &[&str]) -> (r: Vec<String>)
    ensures
        r@.len() == v@.len(),
        forall|i: int| 0 <= i < v@.len() ==> #[trigger] r@[i]@ == v@[i]@,
{
    let mut r: Vec<String> = Vec::new();
    let mut i: usize = 0;
    while i < v.len()
        invariant
            i <= v.len(),
            r@.len() == i,
            forall|k: int| 0 <= k < i ==> #[trigger] r@[k]@ == v@[k]@,
        decreases v.len() - i,
    {
        r.push(owned(v[i]));
        i = i + 1;
    }
    r
}

pub struct ParamSpecView {
    pub name: Seq<char>,
    pub kind: Seq<char>,
    pub description: Seq<char>,
}

pub struct ToolSpecView {
    pub name: Seq<char>,
    pub schema_type: Seq<char>,
    pub description: Seq<char>,
    pub params: Seq<ParamSpecView>,
    pub required: Option<Seq<Seq<char>>>,
}

impl View for ParamSpec {
    type V = ParamSpecView;

    open spec fn view(&self) -> ParamSpecView {
        ParamSpecView { name: self.name@, kind: self.kind@, description: self.description@ }
    }
}

pub open spec fn params_view(v: Seq<ParamSpec>) -> Seq<ParamSpecView> {
    v.map_values(|p: ParamSpec| p@)
}

pub open spec fn required_view(o: Option<Vec<String>>) -> Option<Seq<Seq<char>>> {
    match o {
        Some(v) => Some(strings_view(v@)),
        None => None,
    }
}

impl View for ToolSpec {
    type V = ToolSpecView;

    open spec fn view(&self) -> ToolSpecView {
        ToolSpecView {
            name: self.name@,
            schema_type: self.schema_type@,
            description: self.description@,
            params: params_view(self.params@),
            required: required_view(self.required),
        }
    }
}

pub open spec fn specs_view(v: Seq<ToolSpec>) -> Seq<ToolSpecView> {
    v.map_values(|t: ToolSpec| t@)
}

pub open spec fn param_spec(name: Seq<char>, kind: Seq<char>, description: Seq<char>) -> ParamSpecView {
    ParamSpecView { name, kind, description }
}

/// The input schema of each tool: its name, its description, its arguments
/// with their JSON types and descriptions, and the required ones.
pub open spec fn tool_spec(t: Tool) -> ToolSpecView {
    match t {
        Tool::Remember => ToolSpecView {
            schema_type: "object"@,
            name: "remember"@,
            description: "Store a fact. The agent calls this to remember something about the user or a topic."@,
            params: seq![
                param_spec("subject"@, "string"@, "Entity the fact is about (e.g. 'tamish')"@),
                param_spec("predicate"@, "string"@, "Relationship (e.g. 'uses_os')"@),
                param_spec("object"@, "string"@, "Value (e.g. 'linux')"@),
                param_spec("confidence"@, "number"@, "0.0-1.0, default 1.0"@),
                param_spec("source"@, "string"@, "user, agent, inferred"@),
            ],
            required: Some(seq!["subject"@, "predicate"@, "object"@]),
        },
        Tool::Recall => ToolSpecView {
            schema_type: "object"@,
            name: "cairn"@,
            description: "Query memory. Returns relevant facts by semantic similarity and graph traversal."@,
            params: seq![
                param_spec("query"@, "string"@, "Natural language query"@),
                param_spec("depth"@, "integer"@, "Graph traversal depth (default 2, max 5)"@),
                param_spec("limit"@, "integer"@, "Max facts returned (default 50)"@),
                param_spec("as_of"@, "string"@, "Point-in-time query (ISO8601)"@),
                param_spec("min_confidence"@, "number"@, "Filter (default 0.0)"@),
            ],
            required: Some(seq!["query"@]),
        },
        Tool::Forget => ToolSpecView {
            schema_type: "object"@,
            name: "forget"@,
            description: "Run garbage collection on stale memories. Tombstones facts that have decayed."@,
            params: seq![
                param_spec(
                    "older_than_days"@,
                    "integer"@,
                    "Tombstone facts not accessed in N days (default 30)"@,
                ),
                param_spec("dry_run"@, "boolean"@, "Preview without deleting (default false)"@),
                param_spec("force"@, "boolean"@, "Bypass confidence protection (default false)"@),
            ],
            required: None,
        },
        Tool::Export => ToolSpecView {
            schema_type: "object"@,
            name: "export_memory"@,
            description: "Export all active (not tombstoned) facts as JSON. For backup or transfer to another device."@,
            params: seq![],
            required: None,
        },
        Tool::Import => ToolSpecView {
            schema_type: "object"@,
            name: "import_memory"@,
            description: "Import facts from a JSON export."@,
            params: seq![param_spec("facts"@, "array"@, "Array of fact objects from an export"@)],
            required: Some(seq!["facts"@]),
        },
        Tool::Extract => ToolSpecView {
            schema_type: "object"@,
            name: "extract"@,
            description: "Extract facts from conversation text using pattern matching. No LLM calls."@,
            params: seq![
                param_spec("text"@, "string"@, "Conversation text to extract from"@),
                param_spec("user_name"@, "string"@, "Optional name to use as subject"@),
            ],
            required: Some(seq!["text"@]),
        },
    }
}

/// The entry that lists recall a second time, under the name "recall",
/// with cairn's schema.
pub open spec fn recall_alias_spec() -> ToolSpecView {
    ToolSpecView { name: "recall"@, ..tool_spec(Tool::Recall) }
}

/// The tools `list_tools` lists, in order.
pub open spec fn listed_specs() -> Seq<ToolSpecView> {
    seq![
        tool_spec(Tool::Remember),
        tool_spec(Tool::Recall),
        tool_spec(Tool::Forget),
        tool_spec(Tool::Export),
        tool_spec(Tool::Import),
        tool_spec(Tool::Extract),
        recall_alias_spec(),
    ]
}

/// Some tool `list_tools` lists has the name.
pub open spec fn listed_name(n: Seq<char>) -> bool {
    exists|i: int| 0 <= i < listed_specs().len() && #[trigger] listed_specs()[i].name == n
}

/// The names `list_tools` offers are exactly those `dispatch` answers to: a
/// listed name is routed to the tool it calls, and its reply is that tool's
/// reply or error; any other name is answered "unknown tool: NAME" and the
/// store does not change.
pub proof fn law_listed_iff_dispatched(
    before: StoreView,
    after: StoreView,
    n: Seq<char>,
    args: ToolArgs,
    r: Result<ToolReply, String>,
)
    requires
        dispatch_outcome(before, after, n, args, r),
    ensures
        listed_name(n) <==> tool_of(n) is Some,
        listed_name(n) ==> routed_to(tool_of(n)->0, r),
        !listed_name(n) ==> (r matches Err(e) && e@ == unknown_tool_error(n) && after == before),
{
    let ls = listed_specs();
    if listed_name(n) {
        let i = choose|i: int| 0 <= i < ls.len() && #[trigger] ls[i].name == n;
        assert(0 <= i < 7);
    }
    if tool_of(n) is Some {
        if n == "remember"@ {
            assert(ls[0].name == n);
        } else if n == "cairn"@ {
            assert(ls[1].name == n);
        } else if n == "recall"@ {
            assert(ls[6].name == n);
        } else if n == "forget"@ {
            assert(ls[2].name == n);
        } else if n == "export_memory"@ {
            assert(ls[3].name == n);
        } else if n == "import_memory"@ {
            assert(ls[4].name == n);
        } else {
            assert(ls[5].name == n);
        }
    }
}

/// Some argument has the name.
pub open spec fn param_named(params: Seq<ParamSpecView>, name: Seq<char>) -> bool {
    exists|k: int| 0 <= k < params.len() && #[trigger] params[k].name == name
}

/// Every required argument of a tool is one of its arguments.
pub open spec fn required_are_params(t: ToolSpecView) -> bool {
    match t.required {
        Some(req) => forall|j: int| 0 <= j < req.len() ==> #[trigger] param_named(t.params, req[j]),
        None => true,
    }
}

/// Each tool's schema is sound: what it requires, it lists as an argument.
pub proof fn law_required_are_params(t: Tool)
    ensures
        required_are_params(tool_spec(t)),
{
    let s = tool_spec(t);
    match t {
        Tool::Remember => {
            assert(s.params[0].name == s.required->0[0]);
            assert(s.params[1].name == s.required->0[1]);
            assert(s.params[2].name == s.required->0[2]);
        },
        Tool::Recall => {
            assert(s.params[0].name == s.required->0[0]);
        },
        Tool::Import => {
            assert(s.params[0].name == s.required->0[0]);
        },
        Tool::Extract => {
            assert(s.params[0].name == s.required->0[0]);
        },
        _ => {},
    }
}

fn build(
    Ghost(spec): Ghost<ToolSpecView>,
    name: &str,
    description: &str,
    params: Vec<ParamSpec>,
    required: Option<Vec<String>>,
) -> (r: ToolSpec)
    requires
        spec.schema_type == "object"@,
        name@ == spec.name,
        description@ == spec.description,
        params_view(params@) == spec.params,
        required_view(required) == spec.required,
    ensures
        r@ == spec,
{
    ToolSpec { name: owned(name), schema_type: owned("object"), description: owned(description), params, required }
}

fn recall_params() -> (p: Vec<ParamSpec>)
    ensures
        params_view(p@) == tool_spec(Tool::Recall).params,
{
    let mut p: Vec<ParamSpec> = Vec::new();
    p.push(param("query", "string", "Natural language query"));
    p.push(param("depth", "integer", "Graph traversal depth (default 2, max 5)"));
    p.push(param("limit", "integer", "Max facts returned (default 50)"));
    p.push(param("as_of", "string", "Point-in-time query (ISO8601)"));
    p.push(param("min_confidence", "number", "Filter (default 0.0)"));
    assert(params_view(p@) =~= tool_spec(Tool::Recall).params);
    p
}

/// The tools the server offers, in order: remember, cairn, forget,
/// export_memory, import_memory, extract, and recall (cairn under a second
/// name), each with the input schema `listed_specs` gives: an
/// object whose required arguments are among its arguments. A name is
/// listed exactly when `dispatch` answers to it.
pub fn list_tools() -> (r: Vec<ToolSpec>)
    ensures
        specs_view(r@) == listed_specs(),
        tool_names(r@) == seq![
            "remember"@,
            "cairn"@,
            "forget"@,
            "export_memory"@,
            "import_memory"@,
            "extract"@,
            "recall"@,
        ],
        forall|i: int|
            0 <= i < r@.len() ==> (#[trigger] specs_view(r@)[i]).schema_type == "object"@ && required_are_params(
                specs_view(r@)[i],
            ),
        forall|i: int| 0 <= i < r@.len() ==> #[trigger] tool_of(r@[i].name@) is Some,
        forall|t: Tool| #[trigger] listed(r@, t),
        forall|n: Seq<char>| (tool_of(n) is Some) <==> tool_names(r@).contains(n),
{
    let mut r: Vec<ToolSpec> = Vec::new();
    let mut p: Vec<ParamSpec> = Vec::new();
    p.push(param("subject", "string", "Entity the fact is about (e.g. 'tamish')"));
    p.push(param("predicate", "string", "Relationship (e.g. 'uses_os')"));
    p.push(param("object", "string", "Value (e.g. 'linux')"));
    p.push(param("confidence", "number", "0.0-1.0, default 1.0"));
    p.push(param("source", "string", "user, agent, inferred"));
    let req = names(&["subject", "predicate", "object"]);
    assert(params_view(p@) =~= tool_spec(Tool::Remember).params);
    assert(strings_view(req@) =~= tool_spec(Tool::Remember).required->0);
    r.push(build(
        Ghost(tool_spec(Tool::Remember)),
        "remember",
        "Store a fact. The agent calls this to remember something about the user or a topic.",
        p,
        Some(req),
    ));
    let req = names(&["query"]);
    assert(strings_view(req@) =~= tool_spec(Tool::Recall).required->0);
    r.push(build(
        Ghost(tool_spec(Tool::Recall)),
        "cairn",
        "Query memory. Returns relevant facts by semantic similarity and graph traversal.",
        recall_params(),
        Some(req),
    ));
    let mut p: Vec<ParamSpec> = Vec::new();
    p.push(param("older_than_days", "integer", "Tombstone facts not accessed in N days (default 30)"));
    p.push(param("dry_run", "boolean", "Preview without deleting (default false)"));
    p.push(param("force", "boolean", "Bypass confidence protection (default false)"));
    assert(params_view(p@) =~= tool_spec(Tool::Forget).params);
    r.push(build(
        Ghost(tool_spec(Tool::Forget)),
        "forget",
        "Run garbage collection on stale memories. Tombstones facts that have decayed.",
        p,
        None,
    ));
    let p: Vec<ParamSpec> = Vec::new();
    assert(params_view(p@) =~= tool_spec(Tool::Export).params);
    r.push(build(
        Ghost(tool_spec(Tool::Export)),
        "export_memory",
        "Export all active (not tombstoned) facts as JSON. For backup or transfer to another device.",
        p,
        None,
    ));
    let mut p: Vec<ParamSpec> = Vec::new();
    p.push(param("facts", "array", "Array of fact objects from an export"));
    let req = names(&["facts"]);
    assert(params_view(p@) =~= tool_spec(Tool::Import).params);
    assert(strings_view(req@) =~= tool_spec(Tool::Import).required->0);
    r.push(build(Ghost(tool_spec(Tool::Import)), "import_memory", "Import facts from a JSON export.", p, Some(req)));
    let mut p: Vec<ParamSpec> = Vec::new();
    p.push(param("text", "string", "Conversation text to extract from"));
    p.push(param("user_name", "string", "Optional name to use as subject"));
    let req = names(&["text"]);
    assert(params_view(p@) =~= tool_spec(Tool::Extract).params);
    assert(strings_view(req@) =~= tool_spec(Tool::Extract).required->0);
    r.push(build(
        Ghost(tool_spec(Tool::Extract)),
        "extract",
        "Extract facts from conversation text using pattern matching. No LLM calls.",
        p,
        Some(req),
    ));
    let req = names(&["query"]);
    assert(strings_view(req@) =~= tool_spec(Tool::Recall).required->0);
    r.push(build(
        Ghost(recall_alias_spec()),
        "recall",
        "Query memory. Returns relevant facts by semantic similarity and graph traversal.",
        recall_params(),
        Some(req),
    ));
    proof {
        assert(specs_view(r@) =~= listed_specs());
        assert(r@[0].name@ == specs_view(r@)[0].name);
        assert(r@[1].name@ == specs_view(r@)[1].name);
        assert(r@[2].name@ == specs_view(r@)[2].name);
        assert(r@[3].name@ == specs_view(r@)[3].name);
        assert(r@[4].name@ == specs_view(r@)[4].name);
        assert(r@[5].name@ == specs_view(r@)[5].name);
        assert(r@[6].name@ == specs_view(r@)[6].name);
        law_required_are_params(Tool::Remember);
        law_required_are_params(Tool::Recall);
        law_required_are_params(Tool::Forget);
        law_required_are_params(Tool::Export);
        law_required_are_params(Tool::Import);
        law_required_are_params(Tool::Extract);
        assert(required_are_params(recall_alias_spec())) by {
            let s = tool_spec(Tool::Recall);
            assert(param_named(s.params, s.required->0[0]));
        }
        assert forall|i: int|
            0 <= i < r@.len() implies (#[trigger] specs_view(r@)[i]).schema_type == "object"@ && required_are_params(
            specs_view(r@)[i],
        ) by {
            assert(specs_view(r@)[i] == listed_specs()[i]);
        }
        reveal_strlit("remember");
        reveal_strlit("cairn");
        reveal_strlit("recall");
        reveal_strlit("forget");
        reveal_strlit("export_memory");
        reveal_strlit("import_memory");
        reveal_strlit("extract");
        assert(tool_names(r@) =~= seq![
            "remember"@,
            "cairn"@,
            "forget"@,
            "export_memory"@,
            "import_memory"@,
            "extract"@,
            "recall"@,
        ]);
        assert("cairn"@.len() != "remember"@.len());
        assert("forget"@.len() != "remember"@.len() && "forget"@.len() != "cairn"@.len());
        assert("forget"@[0] != "recall"@[0]);
        assert("export_memory"@.len() != "remember"@.len() && "export_memory"@.len() != "cairn"@.len());
        assert("export_memory"@.len() != "recall"@.len() && "export_memory"@.len() != "forget"@.len());
        assert("import_memory"@.len() != "remember"@.len() && "import_memory"@.len() != "cairn"@.len());
        assert("import_memory"@.len() != "recall"@.len() && "import_memory"@.len() != "forget"@.len());
        assert("import_memory"@[0] != "export_memory"@[0]);
        assert("extract"@.len() != "remember"@.len() && "extract"@.len() != "cairn"@.len());
        assert("extract"@.len() != "recall"@.len() && "extract"@.len() != "forget"@.len());
        assert("extract"@.len() != "export_memory"@.len() && "extract"@.len() != "import_memory"@.len());
        assert("recall"@.len() != "remember"@.len() && "recall"@.len() != "cairn"@.len());
        assert(tool_of(r@[0].name@) == Some(Tool::Remember));
        assert(tool_of(r@[1].name@) == Some(Tool::Recall));
        assert(tool_of(r@[2].name@) == Some(Tool::Forget));
        assert(tool_of(r@[3].name@) == Some(Tool::Export));
        assert(tool_of(r@[4].name@) == Some(Tool::Import));
        assert(tool_of(r@[5].name@) == Some(Tool::Extract));
        assert(tool_of(r@[6].name@) == Some(Tool::Recall));
        assert forall|t: Tool| #[trigger] listed(r@, t) by {
            match t {
                Tool::Remember => assert(tool_of(r@[0].name@) == Some(t)),
                Tool::Recall => assert(tool_of(r@[1].name@) == Some(t)),
                Tool::Forget => assert(tool_of(r@[2].name@) == Some(t)),
                Tool::Export => assert(tool_of(r@[3].name@) == Some(t)),
                Tool::Import => assert(tool_of(r@[4].name@) == Some(t)),
                Tool::Extract => assert(tool_of(r@[5].name@) == Some(t)),
            }
        }
        let ns = tool_names(r@);
        assert forall|n: Seq<char>| (tool_of(n) is Some) <==> ns.contains(n) by {
            if n == "remember"@ {
                assert(ns[0] == n);
            } else if n == "cairn"@ {
                assert(ns[1] == n);
            } else if n == "forget"@ {
                assert(ns[2] == n);
            } else if n == "export_memory"@ {
                assert(ns[3] == n);
            } else if n == "import_memory"@ {
                assert(ns[4] == n);
            } else if n == "extract"@ {
                assert(ns[5] == n);
            } else if n == "recall"@ {
                assert(ns[6] == n);
            } else if ns.contains(n) {
                let k = choose|k: int| 0 <= k < ns.len() && ns[k] == n;
                assert(false);
            }
        }
    }
    r
}

} // verus!
