//! Forgetting as a first-class operation.
//!
//! Stale facts (never accessed, or not accessed for a number of days) below
//! a confidence bound are the candidates. Each candidate's decay score is
//! judged against a threshold; the facts that decayed are tombstoned with
//! the reason, and stay in the store for audit. Facts with confidence 0.8
//! or above are never forgotten unless `force` is set; a lower bound may be
//! given to protect more, never a higher one.
//!
//! The decay score itself, `confidence / (1 + days since access) *
//! ln(access count + 1)`, is floating-point arithmetic on the clock, so it
//! is computed by the caller; this module receives, for each candidate, the
//! verdict with the score and the confidence written out, and writes the
//! reasons ("decay=SCORE" in the tombstone, "decay=SCORE conf=CONF" in the
//! report) itself.

use vstd::prelude::*;
use crate::fact::{Fact, FactView, facts_view};
use crate::store::{
    Store, Sel, pred_of, tombstone_result, store_wf, first_index, lemma_first_index, days_representable,
    cutoff_error, ids_unique, buried, stale_outcome, MAX_TIMESTAMP, MAX_STALE_DAYS,
};
use crate::traverse::strings_view;
use crate::text::concat;

verus! {

/// Confidence bound 0.8, in millionths.
pub const DEFAULT_MIN_CONFIDENCE: u64 = 800_000;

/// Under `force`, a bound above every confidence: 2.0, in millionths.
pub const FORCE_BOUND: u64 = 2_000_000;

/// Days without access after which a fact is stale, when none is given.
pub const DEFAULT_OLDER_THAN_DAYS: i64 = 30;

pub struct ForgetOptions {
    pub older_than_days: Option<i64>,
    /// In millionths; facts at or above it, and always those at 0.8 or
    /// above, are protected.
    pub min_confidence: Option<u64>,
    pub dry_run: bool,
    pub force: bool,
}

impl Default for ForgetOptions {
    fn default() -> (r: Self)
        ensures
            r.older_than_days == Some(DEFAULT_OLDER_THAN_DAYS),
            r.min_confidence == Some(DEFAULT_MIN_CONFIDENCE),
            !r.dry_run,
            !r.force,
    {
        ForgetOptions {
            older_than_days: Some(DEFAULT_OLDER_THAN_DAYS),
            min_confidence: Some(DEFAULT_MIN_CONFIDENCE),
            dry_run: false,
            force: false,
        }
    }
}

pub struct ForgetResult {
    /// Ids of the forgotten facts, in candidate order.
    pub forgotten: Vec<String>,
    /// How many candidates were kept.
    pub kept: usize,
    /// (id, reason) for each forgotten fact.
    pub reasons: Vec<(String, String)>,
}

/// The judgement of one candidate's decay score.
pub struct DecayVerdict {
    /// The score is below the forgetting threshold.
    pub decayed: bool,
    /// The score, written with three decimals.
    pub score: String,
    /// The candidate's confidence, written with two decimals.
    pub confidence: String,
}

pub struct DecayVerdictView {
    pub decayed: bool,
    pub score: Seq<char>,
    pub confidence: Seq<char>,
}

impl View for DecayVerdict {
    type V = DecayVerdictView;

    open spec fn view(&self) -> DecayVerdictView {
        DecayVerdictView { decayed: self.decayed, score: self.score@, confidence: self.confidence@ }
    }
}

/// The reason a forgotten fact's tombstone records: "decay=SCORE".
pub open spec fn decay_note(v: DecayVerdictView) -> Seq<char> {
    "decay="@ + v.score
}

/// The reason reported for a forgotten fact: "decay=SCORE conf=CONFIDENCE".
pub open spec fn decay_reason(v: DecayVerdictView) -> Seq<char> {
    "decay="@ + v.score + " conf="@ + v.confidence
}

pub open spec fn verdicts_view(v: Seq<DecayVerdict>) -> Seq<DecayVerdictView> {
    v.map_values(|d: DecayVerdict| d@)
}

pub open spec fn reasons_view(v: Seq<(String, String)>) -> Seq<(Seq<char>, Seq<char>)> {
    v.map_values(|p: (String, String)| (p.0@, p.1@))
}

/// The confidence bound: above everything under `force`; else the given
/// one when it is below 0.8, else 0.8.
pub open spec fn bound_of(min_confidence: Option<u64>, force: bool) -> u64 {
    if force {
        FORCE_BOUND
    } else {
        match min_confidence {
            Some(c) => if c < DEFAULT_MIN_CONFIDENCE {
                c
            } else {
                DEFAULT_MIN_CONFIDENCE
            },
            None => DEFAULT_MIN_CONFIDENCE,
        }
    }
}

/// The number of days the options ask for: the given one, else 30.
pub open spec fn days_of(older_than_days: Option<i64>) -> i64 {
    match older_than_days {
        Some(d) => d,
        None => DEFAULT_OLDER_THAN_DAYS,
    }
}

/// The confidence bound the options ask for; see `bound_of`.
pub fn max_confidence(opts: &ForgetOptions) -> (r: u64)
    ensures
        r == bound_of(opts.min_confidence, opts.force),
{
    if opts.force {
        FORCE_BOUND
    } else {
        match opts.min_confidence {
            Some(c) => if c < DEFAULT_MIN_CONFIDENCE {
                c
            } else {
                DEFAULT_MIN_CONFIDENCE
            },
            None => DEFAULT_MIN_CONFIDENCE,
        }
    }
}

/// A candidate is forgotten when its score decayed and it is below the
/// bound, or when `force` is set.
pub open spec fn forgets(c: FactView, v: DecayVerdictView, bound: u64, force: bool) -> bool {
    v.decayed && (c.confidence < bound || force)
}

/// Ids of the forgotten candidates, in order.
pub open spec fn forgotten_ids(cs: Seq<FactView>, vs: Seq<DecayVerdictView>, bound: u64, force: bool) -> Seq<
    Seq<char>,
>
    decreases cs.len(),
{
    if cs.len() == 0 || vs.len() != cs.len() {
        seq![]
    } else {
        let prev = forgotten_ids(cs.drop_last(), vs.drop_last(), bound, force);
        if forgets(cs.last(), vs.last(), bound, force) {
            prev.push(cs.last().id)
        } else {
            prev
        }
    }
}

/// (id, reason) of the forgotten candidates, in order.
pub open spec fn forget_reasons(cs: Seq<FactView>, vs: Seq<DecayVerdictView>, bound: u64, force: bool) -> Seq<
    (Seq<char>, Seq<char>),
>
    decreases cs.len(),
{
    if cs.len() == 0 || vs.len() != cs.len() {
        seq![]
    } else {
        let prev = forget_reasons(cs.drop_last(), vs.drop_last(), bound, force);
        if forgets(cs.last(), vs.last(), bound, force) {
            prev.push((cs.last().id, decay_reason(vs.last())))
        } else {
            prev
        }
    }
}

/// The number of candidates kept.
pub open spec fn kept_count(cs: Seq<FactView>, vs: Seq<DecayVerdictView>, bound: u64, force: bool) -> nat
    decreases cs.len(),
{
    if cs.len() == 0 || vs.len() != cs.len() {
        0
    } else {
        let prev = kept_count(cs.drop_last(), vs.drop_last(), bound, force);
        if forgets(cs.last(), vs.last(), bound, force) {
            prev
        } else {
            prev + 1
        }
    }
}

/// The facts after each forgotten candidate, in order, is tombstoned with
/// its verdict's note, "decay=SCORE".
pub open spec fn bury_forgotten(
    fs: Seq<FactView>,
    cs: Seq<FactView>,
    vs: Seq<DecayVerdictView>,
    bound: u64,
    force: bool,
) -> Seq<FactView>
    decreases cs.len(),
{
    if cs.len() == 0 || vs.len() != cs.len() {
        fs
    } else {
        let prev = bury_forgotten(fs, cs.drop_last(), vs.drop_last(), bound, force);
        if forgets(cs.last(), vs.last(), bound, force) {
            tombstone_result(prev, cs.last().id, decay_note(vs.last()))
        } else {
            prev
        }
    }
}

/// The stale facts under the options' bound: not tombstoned, below the
/// bound, and never accessed or last accessed before the cutoff that lies
/// the given number of days (30 when none is given) before the clock's
/// reading. Fails with "cutoff date out of range" when that cutoff date
/// cannot be represented: always for a number of days beyond
/// `days_representable`, never for 0 to `MAX_STALE_DAYS` days.
pub fn forget_candidates(store: &Store, opts: &ForgetOptions) -> (r: Result<Vec<Fact>, String>)
    ensures
        exists|secs: i64, nanos: u32|
            0 <= secs <= MAX_TIMESTAMP && nanos < 1_000_000_000 && #[trigger] stale_outcome(
                store@.facts,
                secs,
                nanos,
                days_of(opts.older_than_days),
                bound_of(opts.min_confidence, opts.force),
                r,
            ),
        r matches Err(e) ==> e@ == cutoff_error(),
        0 <= days_of(opts.older_than_days) <= MAX_STALE_DAYS ==> r is Ok,
        !days_representable(days_of(opts.older_than_days)) ==> r is Err,
{
    let bound = max_confidence(opts);
    let days = match opts.older_than_days {
        Some(d) => d,
        None => DEFAULT_OLDER_THAN_DAYS,
    };
    let r = store.get_stale_facts(days, bound);
    let ghost (secs, nanos) = choose|secs: i64, nanos: u32|
        0 <= secs <= MAX_TIMESTAMP && nanos < 1_000_000_000 && #[trigger] stale_outcome(
            store@.facts,
            secs,
            nanos,
            days,
            bound,
            r,
        );
    assert(stale_outcome(store@.facts, secs, nanos, days_of(opts.older_than_days), bound_of(opts.min_confidence, opts.force), r));
    r
}

/// Forget the candidates whose verdict says they decayed and that are below
/// the bound (or all such under `force`): their ids and reasons are
/// reported, in order, and unless `dry_run` each is tombstoned with the
/// note "decay=SCORE" (the reason reported is "decay=SCORE conf=CONF").
/// The others are counted as kept. Under `dry_run` the store does not
/// change.
pub fn run(
    store: &mut Store,
    opts: &ForgetOptions,
    candidates: &Vec<Fact>,
    verdicts: &Vec<DecayVerdict>,
) -> (r: ForgetResult)
    requires
        old(store).wf(),
        verdicts.len() == candidates.len(),
    ensures
        ({
            let cs = facts_view(candidates@);
            let vs = verdicts_view(verdicts@);
            let bound = bound_of(opts.min_confidence, opts.force);
            &&& final(store).wf()
            &&& final(store)@.device_id == old(store)@.device_id
            &&& strings_view(r.forgotten@) == forgotten_ids(cs, vs, bound, opts.force)
            &&& reasons_view(r.reasons@) == forget_reasons(cs, vs, bound, opts.force)
            &&& r.kept == kept_count(cs, vs, bound, opts.force)
            &&& r.forgotten.len() + r.kept == candidates.len()
            &&& opts.dry_run ==> final(store)@.facts == old(store)@.facts
            &&& !opts.dry_run ==> final(store)@.facts == bury_forgotten(
                old(store)@.facts,
                cs,
                vs,
                bound,
                opts.force,
            )
        }),
{
    let bound = max_confidence(opts);
    let ghost cs = facts_view(candidates@);
    let ghost vs = verdicts_view(verdicts@);
    let ghost fs0 = store@.facts;
    let mut forgotten: Vec<String> = Vec::new();
    let mut kept: usize = 0;
    let mut reasons: Vec<(String, String)> = Vec::new();
    let mut i: usize = 0;
    while i < candidates.len()
        invariant
            cs == facts_view(candidates@),
            vs == verdicts_view(verdicts@),
            verdicts.len() == candidates.len(),
            bound == bound_of(opts.min_confidence, opts.force),
            i <= candidates.len(),
            store.wf(),
            store@.device_id == old(store)@.device_id,
            fs0 == old(store)@.facts,
            strings_view(forgotten@) == forgotten_ids(cs.take(i as int), vs.take(i as int), bound, opts.force),
            reasons_view(reasons@) == forget_reasons(cs.take(i as int), vs.take(i as int), bound, opts.force),
            kept == kept_count(cs.take(i as int), vs.take(i as int), bound, opts.force),
            forgotten.len() + kept == i,
            opts.dry_run ==> store@.facts == fs0,
            !opts.dry_run ==> store@.facts == bury_forgotten(
                fs0,
                cs.take(i as int),
                vs.take(i as int),
                bound,
                opts.force,
            ),
        decreases candidates.len() - i,
    {
        let c = &candidates[i];
        let v = &verdicts[i];
        assert(cs.take(i + 1).drop_last() =~= cs.take(i as int));
        assert(vs.take(i + 1).drop_last() =~= vs.take(i as int));
        assert(cs.take(i + 1).last() == c@);
        assert(vs.take(i + 1).last() == v@);
        if v.decayed && (c.confidence < bound || opts.force) {
            let ghost before_f = forgotten@;
            let ghost before_r = reasons@;
            forgotten.push(c.id.clone());
            let note = concat("decay=", v.score.as_str());
            let with_conf = concat(note.as_str(), " conf=");
            let reason = concat(with_conf.as_str(), v.confidence.as_str());
            reasons.push((c.id.clone(), reason));
            assert(strings_view(forgotten@) =~= strings_view(before_f).push(c@.id));
            assert(reasons_view(reasons@) =~= reasons_view(before_r).push((c@.id, decay_reason(v@))));
            if !opts.dry_run {
                let _ = store.tombstone(c.id.as_str(), note.as_str());
            }
        } else {
            kept = kept + 1;
        }
        i = i + 1;
    }
    assert(cs.take(i as int) =~= cs);
    assert(vs.take(i as int) =~= vs);
    ForgetResult { forgotten, kept, reasons }
}


proof fn lemma_forgotten_below(cs: Seq<FactView>, vs: Seq<DecayVerdictView>, bound: u64, k: int)
    requires
        0 <= k < forgotten_ids(cs, vs, bound, false).len(),
    ensures
        exists|j: int|
            0 <= j < cs.len() && #[trigger] cs[j].id == forgotten_ids(cs, vs, bound, false)[k]
                && cs[j].confidence < bound,
    decreases cs.len(),
{
    let prev = forgotten_ids(cs.drop_last(), vs.drop_last(), bound, false);
    if k < prev.len() {
        lemma_forgotten_below(cs.drop_last(), vs.drop_last(), bound, k);
        let j = choose|j: int|
            0 <= j < cs.drop_last().len() && #[trigger] cs.drop_last()[j].id == prev[k]
                && cs.drop_last()[j].confidence < bound;
        assert(cs[j] == cs.drop_last()[j]);
    } else {
        assert(cs[cs.len() - 1] == cs.last());
    }
}

proof fn lemma_forgotten_prefix(cs: Seq<FactView>, vs: Seq<DecayVerdictView>, bound: u64, force: bool, x: Seq<char>)
    requires
        cs.len() > 0,
        vs.len() == cs.len(),
        !forgotten_ids(cs, vs, bound, force).contains(x),
    ensures
        !forgotten_ids(cs.drop_last(), vs.drop_last(), bound, force).contains(x),
        forgets(cs.last(), vs.last(), bound, force) ==> cs.last().id != x,
{
    let prev = forgotten_ids(cs.drop_last(), vs.drop_last(), bound, force);
    if forgets(cs.last(), vs.last(), bound, force) {
        let full = prev.push(cs.last().id);
        if prev.contains(x) {
            let k = choose|k: int| 0 <= k < prev.len() && prev[k] == x;
            assert(full[k] == x);
        }
        assert(full[prev.len() as int] == cs.last().id);
    }
}

/// Burying leaves every id in place, and leaves alone each fact whose id
/// is not among the forgotten ones.
proof fn lemma_bury_keeps(
    fs: Seq<FactView>,
    cs: Seq<FactView>,
    vs: Seq<DecayVerdictView>,
    bound: u64,
    force: bool,
    i: int,
)
    requires
        0 <= i < fs.len(),
        !forgotten_ids(cs, vs, bound, force).contains(fs[i].id),
    ensures
        bury_forgotten(fs, cs, vs, bound, force).len() == fs.len(),
        bury_forgotten(fs, cs, vs, bound, force)[i] == fs[i],
        forall|k: int| 0 <= k < fs.len() ==> #[trigger] bury_forgotten(fs, cs, vs, bound, force)[k].id == fs[k].id,
    decreases cs.len(),
{
    if cs.len() > 0 && vs.len() == cs.len() {
        lemma_forgotten_prefix(cs, vs, bound, force, fs[i].id);
        lemma_bury_keeps(fs, cs.drop_last(), vs.drop_last(), bound, force, i);
        let prev = bury_forgotten(fs, cs.drop_last(), vs.drop_last(), bound, force);
        if forgets(cs.last(), vs.last(), bound, force) {
            let sel = Sel::IdIs(cs.last().id);
            lemma_first_index(prev, sel);
            let k = first_index(prev, sel);
            if k >= 0 {
                assert(prev[k].id == cs.last().id);
                assert(k != i);
            }
        }
    }
}

/// The positions of the forgotten candidates, in order, with the facts
/// about them that `law_forgotten_are_the_decayed` states.
proof fn lemma_forgotten_positions(cs: Seq<FactView>, vs: Seq<DecayVerdictView>, bound: u64, force: bool) -> (m: Seq<
    int,
>)
    requires
        vs.len() == cs.len(),
    ensures
        m.len() == forgotten_ids(cs, vs, bound, force).len(),
        forall|k: int|
            0 <= k < m.len() ==> 0 <= #[trigger] m[k] < cs.len() && forgotten_ids(cs, vs, bound, force)[k]
                == cs[m[k]].id && vs[m[k]].decayed && (cs[m[k]].confidence < bound || force),
        forall|a: int, b: int| 0 <= a < b < m.len() ==> #[trigger] m[a] < #[trigger] m[b],
        forall|j: int|
            0 <= j < cs.len() && #[trigger] vs[j].decayed && (cs[j].confidence < bound || force) ==> exists|k: int|
                0 <= k < m.len() && #[trigger] m[k] == j,
        kept_count(cs, vs, bound, force) + m.len() == cs.len(),
    decreases cs.len(),
{
    if cs.len() == 0 {
        seq![]
    } else {
        let cp = cs.drop_last();
        let vp = vs.drop_last();
        let n = cs.len() - 1;
        let mp = lemma_forgotten_positions(cp, vp, bound, force);
        assert forall|j: int| 0 <= j < n implies cs[j] == cp[j] && vs[j] == vp[j] by {}
        if forgets(cs.last(), vs.last(), bound, force) {
            let m = mp.push(n);
            assert forall|j: int|
                0 <= j < cs.len() && #[trigger] vs[j].decayed && (cs[j].confidence < bound || force) implies exists|
                k: int,
            | 0 <= k < m.len() && #[trigger] m[k] == j by {
                if j == n {
                    assert(m[mp.len() as int] == j);
                } else {
                    assert(vp[j].decayed && cs[j] == cp[j]);
                    let k = choose|k: int| 0 <= k < mp.len() && #[trigger] mp[k] == j;
                    assert(m[k] == j);
                }
            }
            assert forall|k: int| 0 <= k < m.len() implies 0 <= #[trigger] m[k] < cs.len() && forgotten_ids(
                cs,
                vs,
                bound,
                force,
            )[k] == cs[m[k]].id && vs[m[k]].decayed && (cs[m[k]].confidence < bound || force) by {
                if k < mp.len() {
                    assert(m[k] == mp[k]);
                }
            }
            m
        } else {
            assert forall|j: int|
                0 <= j < cs.len() && #[trigger] vs[j].decayed && (cs[j].confidence < bound || force) implies exists|
                k: int,
            | 0 <= k < mp.len() && #[trigger] mp[k] == j by {
                if j == n {
                    assert(forgets(cs.last(), vs.last(), bound, force));
                } else {
                    assert(vp[j].decayed && cs[j] == cp[j]);
                }
            }
            mp
        }
    }
}

/// Forgetting takes exactly the candidates whose decay verdict says they
/// decayed and that are below the confidence bound, or, under `force`, every
/// decayed candidate whatever its confidence: `force` lifts the confidence
/// protection, never the decay test. The forgotten ids are those
/// candidates' ids, in candidate order; every other candidate, and so every
/// candidate that did not decay, is counted as kept.
pub proof fn law_forgotten_are_the_decayed(cs: Seq<FactView>, vs: Seq<DecayVerdictView>, bound: u64, force: bool)
    requires
        vs.len() == cs.len(),
    ensures
        exists|m: Seq<int>|
            {
                &&& #[trigger] m.len() == forgotten_ids(cs, vs, bound, force).len()
                &&& forall|k: int|
                    0 <= k < m.len() ==> 0 <= #[trigger] m[k] < cs.len() && forgotten_ids(cs, vs, bound, force)[k]
                        == cs[m[k]].id && vs[m[k]].decayed && (cs[m[k]].confidence < bound || force)
                &&& forall|a: int, b: int| 0 <= a < b < m.len() ==> #[trigger] m[a] < #[trigger] m[b]
                &&& forall|j: int|
                    0 <= j < cs.len() && #[trigger] vs[j].decayed && (cs[j].confidence < bound || force)
                        ==> exists|k: int| 0 <= k < m.len() && #[trigger] m[k] == j
            },
        forall|j: int|
            0 <= j < cs.len() && !(#[trigger] vs[j].decayed) ==> !(exists|k: int|
                0 <= k < forgotten_ids(cs, vs, bound, force).len() && forgotten_ids(cs, vs, bound, force)[k]
                    == cs[j].id) || (exists|i: int| 0 <= i < cs.len() && i != j && #[trigger] cs[i].id == cs[j].id),
        kept_count(cs, vs, bound, force) + forgotten_ids(cs, vs, bound, force).len() == cs.len(),
{
    let m = lemma_forgotten_positions(cs, vs, bound, force);
    assert(m.len() == forgotten_ids(cs, vs, bound, force).len());
    let ids = forgotten_ids(cs, vs, bound, force);
    assert forall|j: int|
        0 <= j < cs.len() && !(#[trigger] vs[j].decayed) implies !(exists|k: int|
        0 <= k < ids.len() && ids[k] == cs[j].id) || (exists|i: int|
        0 <= i < cs.len() && i != j && #[trigger] cs[i].id == cs[j].id) by {
        if exists|k: int| 0 <= k < ids.len() && ids[k] == cs[j].id {
            let k = choose|k: int| 0 <= k < ids.len() && ids[k] == cs[j].id;
            assert(0 <= m[k] < cs.len());
            assert(cs[m[k]].id == cs[j].id);
            assert(m[k] != j);
        }
    }
}

/// Facts with confidence 0.8 or above (or at or above a lower bound that is
/// given) are never forgotten unless `force` is set: among the stale
/// candidates of the store at any cutoff, whatever bound is given and
/// whatever the verdicts, no forgotten id is such a fact's, and burying the
/// forgotten leaves it as it was.
pub proof fn law_confident_facts_never_forgotten(
    fs: Seq<FactView>,
    cutoff: Seq<char>,
    vs: Seq<DecayVerdictView>,
    min_confidence: Option<u64>,
    i: int,
)
    requires
        store_wf(fs),
        0 <= i < fs.len(),
        fs[i].confidence >= DEFAULT_MIN_CONFIDENCE || fs[i].confidence >= bound_of(min_confidence, false),
    ensures
        ({
            let bound = bound_of(min_confidence, false);
            let cs = fs.filter(pred_of(Sel::Stale(cutoff, bound)));
            &&& !forgotten_ids(cs, vs, bound, false).contains(fs[i].id)
            &&& bury_forgotten(fs, cs, vs, bound, false).len() == fs.len()
            &&& bury_forgotten(fs, cs, vs, bound, false)[i] == fs[i]
        }),
{
    let bound = bound_of(min_confidence, false);
    let cs = fs.filter(pred_of(Sel::Stale(cutoff, bound)));
    let ids = forgotten_ids(cs, vs, bound, false);
    if ids.contains(fs[i].id) {
        let k = choose|k: int| 0 <= k < ids.len() && ids[k] == fs[i].id;
        lemma_forgotten_below(cs, vs, bound, k);
        let j = choose|j: int| 0 <= j < cs.len() && #[trigger] cs[j].id == ids[k] && cs[j].confidence < bound;
        assert(cs.contains(cs[j]));
        fs.lemma_filter_contains_rev(pred_of(Sel::Stale(cutoff, bound)), cs[j]);
        let m = choose|m: int| 0 <= m < fs.len() && fs[m] == cs[j];
        assert(fs[m].id == fs[i].id);
        assert(m == i);
        assert(false);
    }
    lemma_bury_keeps(fs, cs, vs, bound, false, i);
}

proof fn lemma_filter_keeps_ids_unique(fs: Seq<FactView>, p: spec_fn(FactView) -> bool)
    requires
        ids_unique(fs),
    ensures
        ids_unique(fs.filter(p)),
        forall|j: int| 0 <= j < fs.filter(p).len() ==> fs.contains(#[trigger] fs.filter(p)[j]),
    decreases fs.len(),
{
    reveal(Seq::filter);
    let g = fs.filter(p);
    assert forall|j: int| 0 <= j < g.len() implies fs.contains(#[trigger] g[j]) by {
        assert(g.contains(g[j]));
        fs.lemma_filter_contains_rev(p, g[j]);
    }
    if fs.len() > 0 {
        let s = fs.drop_last();
        let f = fs.last();
        assert(fs =~= s.push(f));
        assert(ids_unique(s)) by {
            assert forall|a: int, b: int| 0 <= a < s.len() && 0 <= b < s.len() && a != b implies #[trigger] s[a].id
                != #[trigger] s[b].id by {
                assert(s[a] == fs[a] && s[b] == fs[b]);
            }
        }
        lemma_filter_keeps_ids_unique(s, p);
        s.lemma_filter_push(f, p);
        let h = s.filter(p);
        if p(f) {
            assert(g == h.push(f));
            assert forall|a: int, b: int| 0 <= a < g.len() && 0 <= b < g.len() && a != b implies #[trigger] g[a].id
                != #[trigger] g[b].id by {
                if a < h.len() && b < h.len() {
                    assert(g[a] == h[a] && g[b] == h[b]);
                } else {
                    let c = if a < h.len() { a } else { b };
                    assert(g[c] == h[c]);
                    assert(s.contains(h[c]));
                    let m = choose|m: int| 0 <= m < s.len() && s[m] == h[c];
                    assert(fs[m] == s[m]);
                    assert(fs[fs.len() - 1] == f);
                }
            }
        } else {
            assert(g == h);
        }
    }
}

proof fn lemma_forgotten_from_candidates(
    cs: Seq<FactView>,
    vs: Seq<DecayVerdictView>,
    bound: u64,
    force: bool,
    k: int,
)
    requires
        0 <= k < forgotten_ids(cs, vs, bound, force).len(),
    ensures
        exists|j: int| 0 <= j < cs.len() && #[trigger] cs[j].id == forgotten_ids(cs, vs, bound, force)[k],
    decreases cs.len(),
{
    let prev = forgotten_ids(cs.drop_last(), vs.drop_last(), bound, force);
    if k < prev.len() {
        lemma_forgotten_from_candidates(cs.drop_last(), vs.drop_last(), bound, force, k);
        let j = choose|j: int| 0 <= j < cs.drop_last().len() && #[trigger] cs.drop_last()[j].id == prev[k];
        assert(cs[j] == cs.drop_last()[j]);
    } else {
        assert(cs[cs.len() - 1] == cs.last());
    }
}

/// What burying does to the fact at `i`: tombstoned with its candidate's
/// note when its id is forgotten, unchanged otherwise.
pub open spec fn buried_as(
    fs: Seq<FactView>,
    cs: Seq<FactView>,
    vs: Seq<DecayVerdictView>,
    bound: u64,
    force: bool,
    after: Seq<FactView>,
    i: int,
) -> bool {
    if forgotten_ids(cs, vs, bound, force).contains(fs[i].id) {
        exists|j: int|
            0 <= j < cs.len() && #[trigger] cs[j].id == fs[i].id && after[i] == buried(fs[i], decay_note(vs[j]))
    } else {
        after[i] == fs[i]
    }
}

proof fn lemma_bury_exact(fs: Seq<FactView>, cs: Seq<FactView>, vs: Seq<DecayVerdictView>, bound: u64, force: bool)
    requires
        ids_unique(fs),
        ids_unique(cs),
        forall|j: int| 0 <= j < cs.len() ==> fs.contains(#[trigger] cs[j]),
        vs.len() == cs.len(),
    ensures
        bury_forgotten(fs, cs, vs, bound, force).len() == fs.len(),
        forall|i: int|
            0 <= i < fs.len() ==> buried_as(fs, cs, vs, bound, force, bury_forgotten(fs, cs, vs, bound, force), i),
    decreases cs.len(),
{
    let after = bury_forgotten(fs, cs, vs, bound, force);
    if cs.len() == 0 {
        assert forall|i: int| 0 <= i < fs.len() implies buried_as(fs, cs, vs, bound, force, after, i) by {
            assert(!forgotten_ids(cs, vs, bound, force).contains(fs[i].id));
        }
    } else {
        let cp = cs.drop_last();
        let vp = vs.drop_last();
        assert(ids_unique(cp)) by {
            assert forall|a: int, b: int| 0 <= a < cp.len() && 0 <= b < cp.len() && a != b implies #[trigger] cp[a].id
                != #[trigger] cp[b].id by {
                assert(cp[a] == cs[a] && cp[b] == cs[b]);
            }
        }
        assert forall|j: int| 0 <= j < cp.len() implies fs.contains(#[trigger] cp[j]) by {
            assert(cp[j] == cs[j]);
        }
        lemma_bury_exact(fs, cp, vp, bound, force);
        let prev = bury_forgotten(fs, cp, vp, bound, force);
        let fp = forgotten_ids(cp, vp, bound, force);
        let fa = forgotten_ids(cs, vs, bound, force);
        let c = cs.last();
        let v = vs.last();
        assert(cs[cs.len() - 1] == c && vs[vs.len() - 1] == v);
        // ids stay in place
        assert forall|i: int| 0 <= i < fs.len() implies #[trigger] prev[i].id == fs[i].id by {
            assert(buried_as(fs, cp, vp, bound, force, prev, i));
            if fp.contains(fs[i].id) {
                let j = choose|j: int|
                    0 <= j < cp.len() && #[trigger] cp[j].id == fs[i].id && prev[i] == buried(fs[i], decay_note(vp[j]));
            }
        }
        if forgets(c, v, bound, force) {
            let x = c.id;
            assert(fa == fp.push(x));
            // x was not forgotten before: candidate ids are distinct
            if fp.contains(x) {
                let k = choose|k: int| 0 <= k < fp.len() && fp[k] == x;
                lemma_forgotten_from_candidates(cp, vp, bound, force, k);
                let j = choose|j: int| 0 <= j < cp.len() && #[trigger] cp[j].id == fp[k];
                assert(cs[j].id == cs[cs.len() - 1].id);
                assert(false);
            }
            let m = choose|m: int| 0 <= m < fs.len() && fs[m] == c;
            let sel = Sel::IdIs(x);
            lemma_first_index(prev, sel);
            assert(prev[m].id == x);
            let k = first_index(prev, sel);
            assert(k >= 0);
            assert(prev[k].id == x);
            assert(fs[k].id == x);
            assert(k == m);
            assert(after == prev.update(k, buried(prev[k], decay_note(v))));
            assert(buried_as(fs, cp, vp, bound, force, prev, k));
            assert(prev[k] == fs[k]);
            assert forall|i: int| 0 <= i < fs.len() implies buried_as(fs, cs, vs, bound, force, after, i) by {
                assert(buried_as(fs, cp, vp, bound, force, prev, i));
                if i == k {
                    assert(fa[fp.len() as int] == x);
                    assert(cs[cs.len() - 1].id == fs[i].id);
                } else {
                    assert(after[i] == prev[i]);
                    assert(fs[i].id != x);
                    if fp.contains(fs[i].id) {
                        let j = choose|j: int|
                            0 <= j < cp.len() && #[trigger] cp[j].id == fs[i].id && prev[i] == buried(
                                fs[i],
                                decay_note(vp[j]),
                            );
                        assert(cs[j] == cp[j] && vs[j] == vp[j]);
                        let q = choose|q: int| 0 <= q < fp.len() && fp[q] == fs[i].id;
                        assert(fa[q] == fs[i].id);
                    } else {
                        if fa.contains(fs[i].id) {
                            let q = choose|q: int| 0 <= q < fa.len() && fa[q] == fs[i].id;
                            if q < fp.len() {
                                assert(fp[q] == fs[i].id);
                            }
                        }
                    }
                }
            }
        } else {
            assert(fa == fp);
            assert(after == prev);
            assert forall|i: int| 0 <= i < fs.len() implies buried_as(fs, cs, vs, bound, force, after, i) by {
                assert(buried_as(fs, cp, vp, bound, force, prev, i));
                if fp.contains(fs[i].id) {
                    let j = choose|j: int|
                        0 <= j < cp.len() && #[trigger] cp[j].id == fs[i].id && prev[i] == buried(
                            fs[i],
                            decay_note(vp[j]),
                        );
                    assert(cs[j] == cp[j] && vs[j] == vp[j]);
                }
            }
        }
    }
}

/// Forgetting touches only the forgotten facts: burying the forgotten
/// stale candidates of a store (at any cutoff and bound, whatever the
/// verdicts) adds and removes no fact; a fact whose id is forgotten is
/// tombstoned with its verdict's note "decay=SCORE" and otherwise left as
/// it was; every other fact is unchanged.
pub proof fn law_forget_changes_only_forgotten(
    fs: Seq<FactView>,
    cutoff: Seq<char>,
    vs: Seq<DecayVerdictView>,
    bound: u64,
    force: bool,
    i: int,
)
    requires
        store_wf(fs),
        vs.len() == fs.filter(pred_of(Sel::Stale(cutoff, bound))).len(),
        0 <= i < fs.len(),
    ensures
        ({
            let cs = fs.filter(pred_of(Sel::Stale(cutoff, bound)));
            let after = bury_forgotten(fs, cs, vs, bound, force);
            &&& after.len() == fs.len()
            &&& buried_as(fs, cs, vs, bound, force, after, i)
        }),
{
    let cs = fs.filter(pred_of(Sel::Stale(cutoff, bound)));
    lemma_filter_keeps_ids_unique(fs, pred_of(Sel::Stale(cutoff, bound)));
    lemma_bury_exact(fs, cs, vs, bound, force);
}

} // verus!
