//! Natural-language recall: entry points by text matching, traversal from
//! them, ranking, and access bookkeeping.
//!
//! Scores are exact integers. A fact's text score counts half-points: two
//! for each query term found in its subject, two for each found in its
//! object, one for each found in its predicate (all lowercased). An entry
//! point's score counts quarter-points. A relevance score is in units of
//! 1e-7: 0.4 of the text points, 0.3 for a fact whose subject is an entry
//! point, and 0.3 of the confidence.

use vstd::prelude::*;
use crate::fact::{Fact, FactView, facts_view, opt_clone, opt_view};
use crate::order::{stable_desc, stable_desc_order, arranged, law_stable_desc_unique};
use crate::store::{Store, Sel, pred_of, touch_result, touched, store_wf, first_index, lemma_first_index};
use crate::text::{chars_of, to_lower, lowercase, split_ws, ws_words, words_view, contains_chars, has_substring};
use crate::traverse::{traverse, explored, found_pred, strings_view, vec_has};
use crate::time::now_rfc3339;

verus! {

pub struct QueryOptions {
    /// Traversal depth; at most 5 is used.
    pub depth: usize,
    pub as_of: Option<String>,
    pub limit: usize,
    /// In millionths.
    pub min_confidence: u64,
}

impl Default for QueryOptions {
    fn default() -> (r: Self)
        ensures
            r.depth == 2,
            r.as_of is None,
            r.limit == 50,
            r.min_confidence == 0,
    {
        QueryOptions { depth: 2, as_of: None, limit: 50, min_confidence: 0 }
    }
}

pub struct FactNode {
    pub id: String,
    pub subject: String,
    pub predicate: String,
    pub object: String,
    /// In millionths.
    pub confidence: u64,
    pub recorded_at: String,
    pub valid_from: String,
    pub valid_until: Option<String>,
    /// Relevance, in units of 1e-7.
    pub score: u128,
}

pub struct FactNodeView {
    pub id: Seq<char>,
    pub subject: Seq<char>,
    pub predicate: Seq<char>,
    pub object: Seq<char>,
    pub confidence: u64,
    pub recorded_at: Seq<char>,
    pub valid_from: Seq<char>,
    pub valid_until: Option<Seq<char>>,
    pub score: u128,
}

impl View for FactNode {
    type V = FactNodeView;

    open spec fn view(&self) -> FactNodeView {
        FactNodeView {
            id: self.id@,
            subject: self.subject@,
            predicate: self.predicate@,
            object: self.object@,
            confidence: self.confidence,
            recorded_at: self.recorded_at@,
            valid_from: self.valid_from@,
            valid_until: opt_view(self.valid_until),
            score: self.score,
        }
    }
}

pub open spec fn nodes_view(v: Seq<FactNode>) -> Seq<FactNodeView> {
    v.map_values(|n: FactNode| n@)
}

pub struct QueryResult {
    /// Ranked, highest relevance first.
    pub facts: Vec<FactNode>,
    pub entry_points: Vec<String>,
}

/// The query terms: the whitespace-separated words of the lowercased query.
pub open spec fn query_terms(q: Seq<char>) -> Seq<Seq<char>> {
    ws_words(lowercase(q))
}

/// Half-points one term earns a fact.
pub open spec fn term_halves(f: FactView, t: Seq<char>) -> int {
    (if has_substring(lowercase(f.subject), t) {
        2int
    } else {
        0int
    }) + (if has_substring(lowercase(f.object), t) {
        2int
    } else {
        0int
    }) + (if has_substring(lowercase(f.predicate), t) {
        1int
    } else {
        0int
    })
}

/// Half-points all terms earn a fact.
pub open spec fn text_halves(f: FactView, terms: Seq<Seq<char>>) -> int
    decreases terms.len(),
{
    if terms.len() == 0 {
        0
    } else {
        text_halves(f, terms.drop_last()) + term_halves(f, terms.last())
    }
}

pub open spec fn sat(x: int) -> u128 {
    if x > u128::MAX {
        u128::MAX
    } else {
        x as u128
    }
}

/// Index of the last tally for `name`, or -1.
pub open spec fn name_index(acc: Seq<(Seq<char>, u128)>, name: Seq<char>) -> int
    decreases acc.len(),
{
    if acc.len() == 0 {
        -1
    } else if acc.last().0 == name {
        acc.len() - 1
    } else {
        name_index(acc.drop_last(), name)
    }
}

proof fn lemma_name_index(acc: Seq<(Seq<char>, u128)>, name: Seq<char>)
    ensures
        -1 <= name_index(acc, name) < acc.len(),
        name_index(acc, name) >= 0 ==> acc[name_index(acc, name)].0 == name,
    decreases acc.len(),
{
    if acc.len() > 0 && acc.last().0 != name {
        lemma_name_index(acc.drop_last(), name);
    }
}

/// Add `amount` to the tally of `name` (a new tally when there is none),
/// saturating at `u128::MAX`.
pub open spec fn credit(acc: Seq<(Seq<char>, u128)>, name: Seq<char>, amount: int) -> Seq<
    (Seq<char>, u128),
> {
    let k = name_index(acc, name);
    if k >= 0 {
        acc.update(k, (name, sat(acc[k].1 + amount)))
    } else {
        acc.push((name, sat(amount)))
    }
}

/// Entry-point tallies in quarter-points, in order of first appearance:
/// every fact that matches the terms gives its subject twice its
/// half-points and its object its half-points.
pub open spec fn entity_scores(facts: Seq<FactView>, terms: Seq<Seq<char>>) -> Seq<(Seq<char>, u128)>
    decreases facts.len(),
{
    if facts.len() == 0 {
        seq![]
    } else {
        let acc = entity_scores(facts.drop_last(), terms);
        let f = facts.last();
        let h = text_halves(f, terms);
        if h > 0 {
            credit(credit(acc, f.subject, 2 * h), f.object, h)
        } else {
            acc
        }
    }
}

/// The stable descending order of the keys (there is exactly one).
pub open spec fn ranking(keys: Seq<u128>) -> Seq<usize> {
    choose|ord: Seq<usize>| stable_desc(keys, ord)
}

proof fn lemma_ranking(keys: Seq<u128>, ord: Seq<usize>)
    requires
        keys.len() <= usize::MAX,
        stable_desc(keys, ord),
    ensures
        ranking(keys) == ord,
{
    let r = ranking(keys);
    assert(stable_desc(keys, r));
    law_stable_desc_unique(keys, r, ord);
}

pub open spec fn tally_scores(acc: Seq<(Seq<char>, u128)>) -> Seq<u128> {
    acc.map_values(|e: (Seq<char>, u128)| e.1)
}

pub open spec fn tally_names(acc: Seq<(Seq<char>, u128)>) -> Seq<Seq<char>> {
    acc.map_values(|e: (Seq<char>, u128)| e.0)
}

pub open spec fn min_nat(a: int, b: int) -> int {
    if a <= b {
        a
    } else {
        b
    }
}

/// At most ten names, best tally first (earlier appearance first on ties).
pub open spec fn entry_points_of(facts: Seq<FactView>, query: Seq<char>) -> Seq<Seq<char>> {
    let acc = entity_scores(facts, query_terms(query));
    let ranked = arranged(tally_names(acc), ranking(tally_scores(acc)));
    ranked.take(min_nat(10, ranked.len() as int))
}

/// Relevance in units of 1e-7: 0.4 of the text points, 0.3 for an entry
/// point subject, 0.3 of the confidence.
pub open spec fn relevance(f: FactView, terms: Seq<Seq<char>>, entry_points: Seq<Seq<char>>) -> int {
    2_000_000 * text_halves(f, terms) + (if entry_points.contains(f.subject) {
        3_000_000int
    } else {
        0int
    }) + 3 * f.confidence
}

fn lower_chars(s: &str) -> (r: Vec<char>)
    ensures
        r@ == lowercase(s@),
{
    let l = to_lower(s);
    chars_of(l.as_str())
}

fn terms_of(q: &str) -> (r: Vec<Vec<char>>)
    ensures
        words_view(r@) == query_terms(q@),
{
    let l = lower_chars(q);
    split_ws(&l)
}

fn text_halves_exec(f: &Fact, terms: &Vec<Vec<char>>) -> (r: u128)
    ensures
        r == text_halves(f@, words_view(terms@)),
        r <= 5 * terms.len(),
{
    let sl = lower_chars(f.subject.as_str());
    let ol = lower_chars(f.object.as_str());
    let pl = lower_chars(f.predicate.as_str());
    let ghost tv = words_view(terms@);
    let mut total: u128 = 0;
    let mut i: usize = 0;
    while i < terms.len()
        invariant
            tv == words_view(terms@),
            i <= terms.len(),
            sl@ == lowercase(f@.subject),
            ol@ == lowercase(f@.object),
            pl@ == lowercase(f@.predicate),
            total == text_halves(f@, tv.take(i as int)),
            total <= 5 * i,
        decreases terms.len() - i,
    {
        assert(tv.take(i + 1).drop_last() =~= tv.take(i as int));
        assert(tv.take(i + 1).last() == terms@[i as int]@);
        let t = &terms[i];
        let mut add: u128 = 0;
        if contains_chars(&sl, t) {
            add = add + 2;
        }
        if contains_chars(&ol, t) {
            add = add + 2;
        }
        if contains_chars(&pl, t) {
            add = add + 1;
        }
        total = total + add;
        i = i + 1;
    }
    assert(tv.take(i as int) =~= tv);
    total
}

fn name_index_exec(acc: &Vec<(String, u128)>, name: &String) -> (r: Option<usize>)
    ensures
        match r {
            Some(k) => name_index(tallies_view(acc@), name@) == k as int,
            None => name_index(tallies_view(acc@), name@) == -1,
        },
{
    let ghost av = tallies_view(acc@);
    let mut i: usize = acc.len();
    assert(av.take(acc.len() as int) =~= av);
    while i > 0
        invariant
            av == tallies_view(acc@),
            i <= acc.len(),
            name_index(av, name@) == name_index(av.take(i as int), name@),
        decreases i,
    {
        let ghost pre = av.take(i as int);
        assert(pre.last() == av[i - 1]);
        assert(pre.drop_last() =~= av.take(i - 1));
        if acc[i - 1].0 == *name {
            return Some(i - 1);
        }
        i = i - 1;
    }
    None
}

pub open spec fn tallies_view(v: Seq<(String, u128)>) -> Seq<(Seq<char>, u128)> {
    v.map_values(|e: (String, u128)| (e.0@, e.1))
}

fn credit_exec(acc: &mut Vec<(String, u128)>, name: &String, amount: u128)
    ensures
        tallies_view(final(acc)@) == credit(tallies_view(old(acc)@), name@, amount as int),
{
    proof {
        lemma_name_index(tallies_view(acc@), name@);
    }
    match name_index_exec(acc, name) {
        Some(k) => {
            let cur = acc[k].1;
            let v = if cur > u128::MAX - amount {
                u128::MAX
            } else {
                cur + amount
            };
            let ghost before = tallies_view(acc@);
            acc.set(k, (name.clone(), v));
            assert(tallies_view(acc@) =~= before.update(k as int, (name@, v)));
        },
        None => {
            let ghost before = tallies_view(acc@);
            acc.push((name.clone(), amount));
            assert(tallies_view(acc@) =~= before.push((name@, amount)));
        },
    }
}

/// The names that best match the query, at most ten: every fact whose
/// lowercased subject, object or predicate contains a query term credits
/// its subject and object; names come highest tally first, and in order of
/// first appearance among equal tallies.
pub fn find_entry_points(facts: &Vec<Fact>, query: &str) -> (r: Vec<String>)
    ensures
        strings_view(r@) == entry_points_of(facts_view(facts@), query@),
{
    let terms = terms_of(query);
    let ghost tv = words_view(terms@);
    let ghost fs = facts_view(facts@);
    let mut acc: Vec<(String, u128)> = Vec::new();
    let mut i: usize = 0;
    assert(tallies_view(acc@) =~= entity_scores(fs.take(0), tv));
    while i < facts.len()
        invariant
            tv == words_view(terms@),
            tv == query_terms(query@),
            fs == facts_view(facts@),
            i <= facts.len(),
            tallies_view(acc@) == entity_scores(fs.take(i as int), tv),
        decreases facts.len() - i,
    {
        let f = &facts[i];
        assert(fs.take(i + 1).drop_last() =~= fs.take(i as int));
        assert(fs.take(i + 1).last() == f@);
        let h = text_halves_exec(f, &terms);
        if h > 0 {
            assert(2 * h <= 10 * 0x1_0000_0000_0000_0000u128);
            credit_exec(&mut acc, &f.subject, 2 * h);
            credit_exec(&mut acc, &f.object, h);
        }
        i = i + 1;
    }
    assert(fs.take(i as int) =~= fs);
    let mut scores: Vec<u128> = Vec::new();
    let mut j: usize = 0;
    while j < acc.len()
        invariant
            j <= acc.len(),
            scores@ == tally_scores(tallies_view(acc@)).take(j as int),
        decreases acc.len() - j,
    {
        scores.push(acc[j].1);
        j = j + 1;
        assert(scores@ =~= tally_scores(tallies_view(acc@)).take(j as int));
    }
    assert(scores@ =~= tally_scores(tallies_view(acc@)));
    let ord = stable_desc_order(&scores);
    proof {
        lemma_ranking(scores@, ord@);
    }
    let n = if ord.len() < 10 {
        ord.len()
    } else {
        10
    };
    let mut r: Vec<String> = Vec::new();
    let mut k: usize = 0;
    let ghost ranked = arranged(tally_names(tallies_view(acc@)), ord@);
    while k < n
        invariant
            n <= ord.len(),
            ord.len() == acc.len(),
            stable_desc(scores@, ord@),
            scores@.len() == acc.len(),
            ranked == arranged(tally_names(tallies_view(acc@)), ord@),
            k <= n,
            strings_view(r@) == ranked.take(k as int),
        decreases n - k,
    {
        let idx = ord[k];
        assert(idx < acc.len());
        assert(ranked[k as int] == tallies_view(acc@)[idx as int].0);
        assert(tallies_view(acc@)[idx as int].0 == acc@[idx as int].0@);
        let name = acc[idx].0.clone();
        assert(name@ == ranked[k as int]);
        let ghost before = r@;
        r.push(name);
        assert(r@ == before.push(name));
        assert(strings_view(r@) =~= strings_view(before).push(name@));
        assert(ranked.take(k + 1) =~= ranked.take(k as int).push(ranked[k as int]));
        k = k + 1;
    }
    r
}

/// Relevance of a fact to the query, given the entry points; see `relevance`.
pub fn relevance_score(fact: &Fact, query: &str, entry_points: &[String]) -> (r: u128)
    ensures
        r == relevance(fact@, query_terms(query@), strings_view(entry_points@)),
{
    let terms = terms_of(query);
    let h = text_halves_exec(fact, &terms);
    let ghost n = terms.len();
    assert(2_000_000 * h <= 10_000_000 * 0x1_0000_0000_0000_0000) by (nonlinear_arith)
        requires
            h <= 5 * n,
            n <= 0x1_0000_0000_0000_0000,
    ;
    let mut bonus: u128 = 0;
    let mut i: usize = 0;
    while i < entry_points.len()
        invariant
            i <= entry_points.len(),
            bonus == 0 || bonus == 3_000_000,
            bonus == 3_000_000 <==> exists|k: int| 0 <= k < i && entry_points@[k]@ == fact@.subject,
        decreases entry_points.len() - i,
    {
        if entry_points[i] == fact.subject {
            bonus = 3_000_000;
        }
        i = i + 1;
    }
    proof {
        if bonus == 3_000_000 {
            let k = choose|k: int| 0 <= k < i && entry_points@[k]@ == fact@.subject;
            assert(strings_view(entry_points@)[k] == fact@.subject);
        }
        if strings_view(entry_points@).contains(fact@.subject) {
            let k = choose|k: int| 0 <= k < strings_view(entry_points@).len() && strings_view(entry_points@)[k] == fact@.subject;
            assert(entry_points@[k]@ == fact@.subject);
        }
    }
    2_000_000 * h + bonus + 3 * (fact.confidence as u128)
}


/// The traversal depth a query uses: the one asked for, at most five.
pub open spec fn capped_depth(d: usize) -> nat {
    if d <= 5 {
        d as nat
    } else {
        5
    }
}

pub open spec fn confident(min: u64) -> spec_fn(FactView) -> bool {
    |f: FactView| f.confidence >= min
}

/// A fact as a query returns it, with its relevance.
pub open spec fn node_of(f: FactView, score: int) -> FactNodeView {
    FactNodeView {
        id: f.id,
        subject: f.subject,
        predicate: f.predicate,
        object: f.object,
        confidence: f.confidence,
        recorded_at: f.recorded_at,
        valid_from: f.valid_from,
        valid_until: f.valid_until,
        score: score as u128,
    }
}

pub open spec fn node_scores(ns: Seq<FactNodeView>) -> Seq<u128> {
    ns.map_values(|n: FactNodeView| n.score)
}

pub open spec fn node_ids(ns: Seq<FactNodeView>) -> Seq<Seq<char>> {
    ns.map_values(|n: FactNodeView| n.id)
}

/// The entry points of a query: matched against the facts that are not
/// tombstoned.
pub open spec fn query_entry_points(fs: Seq<FactView>, query: Seq<char>) -> Seq<Seq<char>> {
    entry_points_of(fs.filter(pred_of(Sel::Active)), query)
}

/// The facts a query's traversal finds, before the confidence filter.
pub open spec fn query_found(fs: Seq<FactView>, query: Seq<char>, depth: usize, as_of: Option<Seq<char>>) -> Seq<
    FactView,
> {
    let eps = query_entry_points(fs, query);
    fs.filter(found_pred(as_of, explored(fs, eps.to_set(), as_of, capped_depth(depth))))
}

/// What a query returns: with no entry point, nothing; otherwise the found
/// facts of at least `min_confidence`, scored, highest score first (equal
/// scores in store order), at most `limit` of them.
pub open spec fn query_nodes(
    fs: Seq<FactView>,
    query: Seq<char>,
    depth: usize,
    as_of: Option<Seq<char>>,
    limit: usize,
    min_confidence: u64,
) -> Seq<FactNodeView> {
    let eps = query_entry_points(fs, query);
    if eps.len() == 0 {
        seq![]
    } else {
        let kept = query_found(fs, query, depth, as_of).filter(confident(min_confidence));
        let scored = kept.map_values(|f: FactView| node_of(f, relevance(f, query_terms(query), eps)));
        let ranked = arranged(scored, ranking(node_scores(scored)));
        ranked.take(min_nat(limit as int, ranked.len() as int))
    }
}

/// The facts after each id in turn is touched at `now`.
pub open spec fn touch_all(fs: Seq<FactView>, ids: Seq<Seq<char>>, now: Seq<char>) -> Seq<FactView>
    decreases ids.len(),
{
    if ids.len() == 0 {
        fs
    } else {
        touch_result(touch_all(fs, ids.drop_last(), now), ids.last(), now)
    }
}

fn node_from(f: &Fact, score: u128) -> (n: FactNode)
    ensures
        n@ == node_of(f@, score as int),
{
    FactNode {
        id: f.id.clone(),
        subject: f.subject.clone(),
        predicate: f.predicate.clone(),
        object: f.object.clone(),
        confidence: f.confidence,
        recorded_at: f.recorded_at.clone(),
        valid_from: f.valid_from.clone(),
        valid_until: opt_clone(&f.valid_until),
        score,
    }
}

/// `query` at the moment `now`: the entry points, the ranked facts (see
/// `query_nodes`), and every returned fact touched at `now`, in rank order.
pub fn query_at(store: &mut Store, query_text: &str, opts: QueryOptions, now: &str) -> (r: Result<QueryResult, String>)
    requires
        old(store).wf(),
    ensures
        final(store).wf(),
        final(store)@.device_id == old(store)@.device_id,
        ({
            let fs = old(store)@.facts;
            let nodes = query_nodes(fs, query_text@, opts.depth, opt_view(opts.as_of), opts.limit, opts.min_confidence);
            &&& r matches Ok(res)
            &&& nodes_view(res.facts@) == nodes
            &&& strings_view(res.entry_points@) == query_entry_points(fs, query_text@)
            &&& final(store)@.facts == touch_all(fs, node_ids(nodes), now@)
            &&& res.facts.len() <= opts.limit
            &&& forall|i: int, j: int|
                0 <= i < j < res.facts.len() ==> #[trigger] res.facts@[i].score >= #[trigger] res.facts@[j].score
            &&& forall|i: int| 0 <= i < res.facts.len() ==> #[trigger] res.facts@[i].confidence >= opts.min_confidence
        }),
{
    let ghost fs = store@.facts;
    let ghost aw = opt_view(opts.as_of);
    let active = match store.get_active_facts() {
        Ok(v) => v,
        Err(e) => {
            return Err(e);
        },
    };
    let entry_points = find_entry_points(&active, query_text);
    let ghost eps = strings_view(entry_points@);
    let ghost terms = query_terms(query_text@);
    if entry_points.len() == 0 {
        assert(touch_all(fs, node_ids(seq![]), now@) == fs);
        let res = QueryResult { facts: Vec::new(), entry_points: Vec::new() };
        assert(nodes_view(res.facts@) =~= Seq::<FactNodeView>::empty());
        assert(strings_view(res.entry_points@) =~= eps);
        return Ok(res);
    }
    let depth: usize = if opts.depth <= 5 {
        opts.depth
    } else {
        5
    };
    let as_of: Option<&str> = match &opts.as_of {
        Some(t) => Some(t.as_str()),
        None => None,
    };
    let found = match traverse(store, entry_points.as_slice(), depth, as_of) {
        Ok(t) => t.facts,
        Err(e) => {
            return Err(e);
        },
    };
    let ghost fv = facts_view(found@);
    assert(fv == query_found(fs, query_text@, opts.depth, aw));
    // keep the confident facts and score them
    let mut kept: Vec<Fact> = Vec::new();
    let mut scores: Vec<u128> = Vec::new();
    let mut i: usize = 0;
    reveal(Seq::filter);
    assert(fv.take(0) =~= Seq::<FactView>::empty());
    while i < found.len()
        invariant
            fv == facts_view(found@),
            i <= found.len(),
            facts_view(kept@) == fv.take(i as int).filter(confident(opts.min_confidence)),
            scores@.len() == kept@.len(),
            forall|j: int|
                0 <= j < kept@.len() ==> #[trigger] scores@[j] as int == relevance(kept@[j]@, terms, eps),
            eps == strings_view(entry_points@),
            terms == query_terms(query_text@),
        decreases found.len() - i,
    {
        let f = &found[i];
        assert(fv[i as int] == f@);
        assert(fv.take(i + 1) =~= fv.take(i as int).push(f@));
        proof {
            fv.take(i as int).lemma_filter_push(f@, confident(opts.min_confidence));
        }
        if f.confidence >= opts.min_confidence {
            let sc = relevance_score(f, query_text, entry_points.as_slice());
            let ghost old_kept = kept@;
            kept.push(f.duplicate());
            scores.push(sc);
            assert(facts_view(kept@) =~= facts_view(old_kept).push(f@));
        }
        i = i + 1;
    }
    assert(fv.take(i as int) =~= fv);
    assert forall|j: int| 0 <= j < kept@.len() implies #[trigger] kept@[j].confidence >= opts.min_confidence by {
        assert(facts_view(kept@)[j] == kept@[j]@);
        fv.lemma_filter_pred(confident(opts.min_confidence), j);
    }
    let ghost kv = facts_view(kept@);
    let ghost scored = kv.map_values(|f: FactView| node_of(f, relevance(f, terms, eps)));
    assert(node_scores(scored) =~= scores@);
    let ord = stable_desc_order(&scores);
    proof {
        lemma_ranking(scores@, ord@);
    }
    let ghost ranked = arranged(scored, ord@);
    let n: usize = if ord.len() < opts.limit {
        ord.len()
    } else {
        opts.limit
    };
    let mut nodes: Vec<FactNode> = Vec::new();
    let mut k: usize = 0;
    while k < n
        invariant
            n <= ord.len(),
            ord.len() == kept.len(),
            stable_desc(scores@, ord@),
            scores@.len() == kept@.len(),
            kv == facts_view(kept@),
            scored == kv.map_values(|f: FactView| node_of(f, relevance(f, terms, eps))),
            forall|j: int|
                0 <= j < kept@.len() ==> #[trigger] scores@[j] as int == relevance(kept@[j]@, terms, eps),
            ranked == arranged(scored, ord@),
            k <= n,
            n <= opts.limit,
            nodes_view(nodes@) == ranked.take(k as int),
            forall|j: int| 0 <= j < kept@.len() ==> #[trigger] kept@[j].confidence >= opts.min_confidence,
            forall|j: int| 0 <= j < k ==> nodes@[j].score == scores@[ord@[j] as int],
            forall|j: int| 0 <= j < k ==> #[trigger] nodes@[j].confidence >= opts.min_confidence,
        decreases n - k,
    {
        let idx = ord[k];
        assert(idx < kept.len());
        let node = node_from(&kept[idx], scores[idx]);
        assert(scores@[idx as int] as int == relevance(kept@[idx as int]@, terms, eps));
        assert(node@ == ranked[k as int]);
        let ghost before = nodes@;
        nodes.push(node);
        assert(nodes_view(nodes@) =~= nodes_view(before).push(node@));
        assert(ranked.take(k + 1) =~= ranked.take(k as int).push(ranked[k as int]));
        k = k + 1;
    }
    assert forall|a: int, b: int| 0 <= a < b < nodes.len() implies #[trigger] nodes@[a].score >= #[trigger] nodes@[b].score by {
        assert(nodes@[a].score == scores@[ord@[a] as int]);
        assert(nodes@[b].score == scores@[ord@[b] as int]);
    }
    let ghost result_nodes = ranked.take(n as int);
    assert(result_nodes == query_nodes(fs, query_text@, opts.depth, aw, opts.limit, opts.min_confidence));
    // every returned fact counts one more access
    let mut t: usize = 0;
    let ghost ids = node_ids(result_nodes);
    while t < nodes.len()
        invariant
            nodes_view(nodes@) == result_nodes,
            ids == node_ids(result_nodes),
            t <= nodes.len(),
            store.wf(),
            store@.device_id == old(store)@.device_id,
            store@.facts == touch_all(fs, ids.take(t as int), now@),
        decreases nodes.len() - t,
    {
        assert(ids.take(t + 1).drop_last() =~= ids.take(t as int));
        assert(ids.take(t + 1).last() == nodes@[t as int].id@);
        store.touch_at(nodes[t].id.as_str(), now);
        t = t + 1;
    }
    assert(ids.take(t as int) =~= ids);
    Ok(QueryResult { facts: nodes, entry_points })
}

/// Natural-language recall: `query_at` with the current time.
pub fn query(store: &mut Store, query_text: &str, opts: QueryOptions) -> (r: Result<QueryResult, String>)
    requires
        old(store).wf(),
    ensures
        final(store).wf(),
        final(store)@.device_id == old(store)@.device_id,
        ({
            let fs = old(store)@.facts;
            let nodes = query_nodes(fs, query_text@, opts.depth, opt_view(opts.as_of), opts.limit, opts.min_confidence);
            &&& r matches Ok(res)
            &&& nodes_view(res.facts@) == nodes
            &&& strings_view(res.entry_points@) == query_entry_points(fs, query_text@)
            &&& exists|now: Seq<char>| final(store)@.facts == touch_all(fs, node_ids(nodes), now)
            &&& res.facts.len() <= opts.limit
            &&& forall|i: int, j: int|
                0 <= i < j < res.facts.len() ==> #[trigger] res.facts@[i].score >= #[trigger] res.facts@[j].score
            &&& forall|i: int| 0 <= i < res.facts.len() ==> #[trigger] res.facts@[i].confidence >= opts.min_confidence
        }),
{
    let now = now_rfc3339();
    query_at(store, query_text, opts, now.as_str())
}

/// The entry-point bonus depends only on whether the fact's subject is an
/// entry point, wherever it stands among them: such a fact scores exactly
/// 0.3 (3_000_000) above its score with no entry points, and any other fact
/// scores the same as with none. With no entry points a fact scores 0.4 per
/// text point (2_000_000 per half-point) and 0.3 of its confidence. So
/// reordering the entry points changes no fact's relevance.
pub proof fn law_relevance_entry_bonus(f: FactView, terms: Seq<Seq<char>>, entry_points: Seq<Seq<char>>, i: int)
    ensures
        relevance(f, terms, seq![]) == 2_000_000 * text_halves(f, terms) + 3 * f.confidence,
        0 <= i < entry_points.len() && entry_points[i] == f.subject ==> relevance(f, terms, entry_points)
            == relevance(f, terms, seq![]) + 3_000_000,
        (forall|j: int| 0 <= j < entry_points.len() ==> entry_points[j] != f.subject) ==> relevance(
            f,
            terms,
            entry_points,
        ) == relevance(f, terms, seq![]),
{
    let e: Seq<Seq<char>> = seq![];
    assert(!e.contains(f.subject));
    if 0 <= i < entry_points.len() && entry_points[i] == f.subject {
        assert(entry_points.contains(f.subject));
    }
}

/// Each query term adds to a fact's relevance 0.4 (4_000_000) when it
/// occurs in the lowercased subject, 0.4 more when it occurs in the
/// lowercased object, and 0.2 (2_000_000) more when it occurs in the
/// lowercased predicate, independently of the other terms.
pub proof fn law_relevance_per_term(
    f: FactView,
    terms: Seq<Seq<char>>,
    t: Seq<char>,
    entry_points: Seq<Seq<char>>,
)
    ensures
        relevance(f, terms.push(t), entry_points) == relevance(f, terms, entry_points) + (if has_substring(
            lowercase(f.subject),
            t,
        ) {
            4_000_000int
        } else {
            0int
        }) + (if has_substring(lowercase(f.object), t) {
            4_000_000int
        } else {
            0int
        }) + (if has_substring(lowercase(f.predicate), t) {
            2_000_000int
        } else {
            0int
        }),
        relevance(f, seq![], entry_points) >= 3 * f.confidence,
{
    assert(terms.push(t).drop_last() =~= terms);
    let e: Seq<Seq<char>> = seq![];
    assert(text_halves(f, e) == 0);
}

/// Relevance does not depend on the order of the entry points: two lists
/// with the same names give every fact the same relevance.
pub proof fn law_relevance_ignores_entry_order(
    f: FactView,
    terms: Seq<Seq<char>>,
    a: Seq<Seq<char>>,
    b: Seq<Seq<char>>,
)
    requires
        a.to_multiset() == b.to_multiset(),
    ensures
        relevance(f, terms, a) == relevance(f, terms, b),
{
    broadcast use vstd::seq_lib::group_to_multiset_ensures;
    assert(a.contains(f.subject) <==> a.to_multiset().count(f.subject) > 0);
    assert(b.contains(f.subject) <==> b.to_multiset().count(f.subject) > 0);
}

/// The access count counts recalls: after the facts with the given ids
/// (each named once) are touched at `now`, a fact whose id is among them
/// has one more access and was last accessed `now`, and every other fact is
/// unchanged; no fact is added or removed.
pub proof fn law_touch_counts_each_returned_fact(fs: Seq<FactView>, ids: Seq<Seq<char>>, now: Seq<char>, i: int)
    requires
        store_wf(fs),
        ids.no_duplicates(),
        0 <= i < fs.len(),
    ensures
        touch_all(fs, ids, now).len() == fs.len(),
        touch_all(fs, ids, now)[i] == (if ids.contains(fs[i].id) {
            touched(fs[i], now)
        } else {
            fs[i]
        }),
    decreases ids.len(),
{
    lemma_touch_all_ids(fs, ids, now);
    if ids.len() > 0 {
        let rest = ids.drop_last();
        let x = ids.last();
        assert(rest.no_duplicates()) by {
            assert forall|a: int, b: int| 0 <= a < rest.len() && 0 <= b < rest.len() && a != b implies rest[a]
                != rest[b] by {
                assert(rest[a] == ids[a] && rest[b] == ids[b]);
            }
        }
        law_touch_counts_each_returned_fact(fs, rest, now, i);
        let prev = touch_all(fs, rest, now);
        lemma_touch_all_ids(fs, rest, now);
        let sel = Sel::IdIs(x);
        lemma_first_index(prev, sel);
        let k = first_index(prev, sel);
        assert(ids =~= rest.push(x));
        if !rest.contains(x) {
        } else {
            let j = choose|j: int| 0 <= j < rest.len() && rest[j] == x;
            assert(ids[j] == ids[ids.len() - 1]);
        }
        assert(!rest.contains(x));
        if ids.contains(fs[i].id) && !rest.contains(fs[i].id) {
            let j = choose|j: int| 0 <= j < ids.len() && ids[j] == fs[i].id;
            if j < rest.len() {
                assert(rest[j] == fs[i].id);
            }
        }
        if rest.contains(fs[i].id) {
            let j = choose|j: int| 0 <= j < rest.len() && rest[j] == fs[i].id;
            assert(ids[j] == fs[i].id);
        }
        if k >= 0 {
            assert(prev[k].id == x);
            if k != i && fs[i].id == x {
                assert(fs[k].id == prev[k].id);
                assert(false);
            }
        }
    }
}

proof fn lemma_touch_all_ids(fs: Seq<FactView>, ids: Seq<Seq<char>>, now: Seq<char>)
    ensures
        touch_all(fs, ids, now).len() == fs.len(),
        forall|j: int| 0 <= j < fs.len() ==> #[trigger] touch_all(fs, ids, now)[j].id == fs[j].id,
    decreases ids.len(),
{
    if ids.len() > 0 {
        lemma_touch_all_ids(fs, ids.drop_last(), now);
        let prev = touch_all(fs, ids.drop_last(), now);
        lemma_first_index(prev, Sel::IdIs(ids.last()));
    }
}

} // verus!
