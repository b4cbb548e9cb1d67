//! Federated sync: two devices exchange bundles of facts.
//!
//! An incoming fact conflicts with the newest open fact that has its subject
//! and predicate. The higher confidence wins; on equal confidence the later
//! `recorded_at`; then the greater device id. When the incoming fact wins,
//! the existing one is closed at the incoming fact's `valid_from` and the
//! incoming fact is inserted. When the existing fact wins, it is touched
//! and the incoming fact is skipped. Without a conflict the fact is
//! inserted directly.

use vstd::prelude::*;
use crate::fact::{Fact, FactView, facts_view};
use crate::store::{
    Store, Sel, picks, first_index, lemma_first_index, close_result, touch_result, import_result,
    store_wf, is_open, without_id, insert_sorted, insert_pos, lemma_has_id_first_index, contains_fact,
    law_import_fact_round_trip, lemma_update_wf, closed_at,
};
use crate::text::{lex_lt, str_lt, owned, lemma_lex_lt_irreflexive, lemma_lex_lt_asymmetric, lemma_lex_lt_total, lemma_lex_lt_transitive};
use crate::time::now_rfc3339;

pub use crate::clock::merge_vector_clocks;

verus! {

pub struct SyncBundle {
    pub device_id: String,
    pub facts: Vec<Fact>,
    pub last_sync_counter: i64,
}

/// Every fact of the store, newest first, under the device name "local".
pub fn export_bundle(store: &Store) -> (r: Result<SyncBundle, String>)
    ensures
        r matches Ok(b) && b.device_id@ == "local"@ && facts_view(b.facts@) == store@.facts
            && b.last_sync_counter == 0,
{
    let facts = match store.all_facts() {
        Ok(v) => v,
        Err(e) => {
            return Err(e);
        },
    };
    Ok(SyncBundle { device_id: owned("local"), facts, last_sync_counter: 0 })
}

/// The incoming fact beats the existing one: higher confidence; on equal
/// confidence, later `recorded_at`; then, on equal time, greater device id.
pub open spec fn wins(incoming: FactView, existing: FactView) -> bool {
    ||| incoming.confidence > existing.confidence
    ||| incoming.confidence == existing.confidence && lex_lt(existing.recorded_at, incoming.recorded_at)
    ||| incoming.confidence == existing.confidence && existing.recorded_at == incoming.recorded_at
        && lex_lt(existing.device_id, incoming.device_id)
}

/// What becomes of an incoming fact.
pub enum ConflictResolution {
    /// No open fact has its subject and predicate: insert it.
    Insert,
    /// It beats the open fact with this id: close that one, insert it.
    Replace(String),
    /// The open fact with this id, with the same object, wins: touch it.
    Merge(String),
    /// The open fact with this id, with another object, wins: touch it.
    Skip(String),
}

pub enum Resolution {
    Insert,
    Replace(Seq<char>),
    Merge(Seq<char>),
    Skip(Seq<char>),
}

impl View for ConflictResolution {
    type V = Resolution;

    open spec fn view(&self) -> Resolution {
        match self {
            ConflictResolution::Insert => Resolution::Insert,
            ConflictResolution::Replace(id) => Resolution::Replace(id@),
            ConflictResolution::Merge(id) => Resolution::Merge(id@),
            ConflictResolution::Skip(id) => Resolution::Skip(id@),
        }
    }
}

/// The resolution of `incoming` against the store's facts.
pub open spec fn resolution(fs: Seq<FactView>, incoming: FactView) -> Resolution {
    let k = first_index(fs, Sel::OpenPair(incoming.subject, incoming.predicate));
    if k < 0 {
        Resolution::Insert
    } else if wins(incoming, fs[k]) {
        Resolution::Replace(fs[k].id)
    } else if fs[k].object == incoming.object {
        Resolution::Merge(fs[k].id)
    } else {
        Resolution::Skip(fs[k].id)
    }
}

fn wins_exec(incoming: &Fact, existing: &Fact) -> (r: bool)
    ensures
        r == wins(incoming@, existing@),
{
    if incoming.confidence != existing.confidence {
        return incoming.confidence > existing.confidence;
    }
    if str_lt(existing.recorded_at.as_str(), incoming.recorded_at.as_str()) {
        return true;
    }
    if existing.recorded_at == incoming.recorded_at {
        return str_lt(existing.device_id.as_str(), incoming.device_id.as_str());
    }
    false
}

/// How `incoming` is to be imported; see `resolution`.
pub fn resolve_conflict(store: &Store, incoming: &Fact) -> (r: ConflictResolution)
    ensures
        r@ == resolution(store@.facts, incoming@),
{
    match store.find_active(incoming.subject.as_str(), incoming.predicate.as_str()) {
        None => ConflictResolution::Insert,
        Some(existing) => {
            if wins_exec(incoming, &existing) {
                ConflictResolution::Replace(existing.id)
            } else if existing.object == incoming.object {
                ConflictResolution::Merge(existing.id)
            } else {
                ConflictResolution::Skip(existing.id)
            }
        },
    }
}

/// The facts after importing one fact with touches at `now`, and whether it
/// counts as imported (inserted, or merged into an equal fact).
pub open spec fn import_step(fs: Seq<FactView>, f: FactView, now: Seq<char>) -> (Seq<FactView>, bool) {
    match resolution(fs, f) {
        Resolution::Insert => (import_result(fs, f), true),
        Resolution::Replace(id) => (import_result(close_result(fs, id, f.valid_from), f), true),
        Resolution::Merge(id) => (touch_result(fs, id, now), true),
        Resolution::Skip(id) => (touch_result(fs, id, now), false),
    }
}

/// The facts after importing the bundle's facts in order, and the count.
pub open spec fn import_all(fs: Seq<FactView>, bs: Seq<FactView>, now: Seq<char>) -> (Seq<FactView>, nat)
    decreases bs.len(),
{
    if bs.len() == 0 {
        (fs, 0)
    } else {
        let prev = import_all(fs, bs.drop_last(), now);
        let step = import_step(prev.0, bs.last(), now);
        (step.0, if step.1 {
            prev.1 + 1
        } else {
            prev.1
        })
    }
}

/// `import_bundle` with touches at `now`: see `import_all`.
pub fn import_bundle_at(store: &mut Store, bundle: &SyncBundle, now: &str) -> (r: Result<usize, String>)
    requires
        old(store).wf(),
    ensures
        final(store).wf(),
        final(store)@.device_id == old(store)@.device_id,
        ({
            let res = import_all(old(store)@.facts, facts_view(bundle.facts@), now@);
            r matches Ok(n) && n == res.1 && final(store)@.facts == res.0
        }),
{
    let ghost bs = facts_view(bundle.facts@);
    let ghost fs0 = store@.facts;
    let mut imported: usize = 0;
    let mut i: usize = 0;
    while i < bundle.facts.len()
        invariant
            bs == facts_view(bundle.facts@),
            fs0 == old(store)@.facts,
            i <= bundle.facts.len(),
            store.wf(),
            store@.device_id == old(store)@.device_id,
            import_all(fs0, bs.take(i as int), now@).0 == store@.facts,
            import_all(fs0, bs.take(i as int), now@).1 == imported,
            imported <= i,
        decreases bundle.facts.len() - i,
    {
        let f = &bundle.facts[i];
        assert(bs.take(i + 1).drop_last() =~= bs.take(i as int));
        assert(bs.take(i + 1).last() == f@);
        match resolve_conflict(store, f) {
            ConflictResolution::Insert => {
                let _ = store.import_fact(f);
                imported = imported + 1;
            },
            ConflictResolution::Replace(id) => {
                store.close_at(id.as_str(), f.valid_from.as_str());
                let _ = store.import_fact(f);
                imported = imported + 1;
            },
            ConflictResolution::Merge(id) => {
                let _ = store.touch_at(id.as_str(), now);
                imported = imported + 1;
            },
            ConflictResolution::Skip(id) => {
                let _ = store.touch_at(id.as_str(), now);
            },
        }
        i = i + 1;
    }
    assert(bs.take(i as int) =~= bs);
    Ok(imported)
}

/// Import a bundle, touching at the current time; returns how many facts
/// were inserted or merged. See `import_all`.
pub fn import_bundle(store: &mut Store, bundle: &SyncBundle) -> (r: Result<usize, String>)
    requires
        old(store).wf(),
    ensures
        final(store).wf(),
        final(store)@.device_id == old(store)@.device_id,
        exists|now: Seq<char>|
            {
                let res = #[trigger] import_all(old(store)@.facts, facts_view(bundle.facts@), now);
                r matches Ok(n) && n == res.1 && final(store)@.facts == res.0
            },
{
    let now = now_rfc3339();
    import_bundle_at(store, bundle, now.as_str())
}

/// Conflict resolution leaves no ambiguity: no fact beats itself, of two
/// facts at most one beats the other, exactly one does when they differ in
/// confidence, recording time or device id, and beating is transitive.
pub proof fn law_resolution_is_a_strict_total_order(a: FactView, b: FactView, c: FactView)
    ensures
        !wins(a, a),
        !(wins(a, b) && wins(b, a)),
        (a.confidence != b.confidence || a.recorded_at != b.recorded_at || a.device_id != b.device_id) ==> (
        wins(a, b) || wins(b, a)),
        wins(a, b) && wins(b, c) ==> wins(a, c),
{
    lemma_lex_lt_irreflexive(a.recorded_at);
    lemma_lex_lt_irreflexive(a.device_id);
    lemma_lex_lt_total(a.recorded_at, b.recorded_at);
    lemma_lex_lt_total(a.device_id, b.device_id);
    if lex_lt(a.recorded_at, b.recorded_at) {
        lemma_lex_lt_asymmetric(a.recorded_at, b.recorded_at);
    }
    if lex_lt(b.recorded_at, a.recorded_at) {
        lemma_lex_lt_asymmetric(b.recorded_at, a.recorded_at);
    }
    if lex_lt(a.device_id, b.device_id) {
        lemma_lex_lt_asymmetric(a.device_id, b.device_id);
    }
    if lex_lt(b.device_id, a.device_id) {
        lemma_lex_lt_asymmetric(b.device_id, a.device_id);
    }
    if wins(a, b) && wins(b, c) {
        if lex_lt(c.recorded_at, b.recorded_at) && lex_lt(b.recorded_at, a.recorded_at) {
            lemma_lex_lt_transitive(c.recorded_at, b.recorded_at, a.recorded_at);
        }
        if lex_lt(c.device_id, b.device_id) && lex_lt(b.device_id, a.device_id) {
            lemma_lex_lt_transitive(c.device_id, b.device_id, a.device_id);
        }
    }
}

/// How an incoming fact meets the newest open fact with its subject and
/// predicate. With none, it is inserted. When it beats that fact (higher
/// confidence; on a tie, later recording; then greater device id), it is
/// stored, whatever the two objects are, and the old fact is closed at its
/// `valid_from`; in particular a higher confidence always wins. Otherwise
/// the store only has the existing fact touched, and the incoming fact
/// counts as imported exactly when the objects agree.
pub proof fn law_incoming_winner_is_stored(fs: Seq<FactView>, f: FactView, now: Seq<char>)
    requires
        store_wf(fs),
    ensures
        ({
            let k = first_index(fs, Sel::OpenPair(f.subject, f.predicate));
            let step = import_step(fs, f, now);
            &&& k < 0 ==> resolution(fs, f) == Resolution::Insert && step.1 && contains_fact(step.0, f)
            &&& k >= 0 && f.confidence > fs[k].confidence ==> resolution(fs, f) == Resolution::Replace(fs[k].id)
            &&& k >= 0 && f.confidence == fs[k].confidence && lex_lt(fs[k].recorded_at, f.recorded_at)
                ==> resolution(fs, f) == Resolution::Replace(fs[k].id)
            &&& k >= 0 && f.confidence == fs[k].confidence && f.recorded_at == fs[k].recorded_at && lex_lt(
                fs[k].device_id,
                f.device_id,
            ) ==> resolution(fs, f) == Resolution::Replace(fs[k].id)
            &&& k >= 0 && f.confidence < fs[k].confidence ==> resolution(fs, f) != Resolution::Replace(fs[k].id)
            &&& k >= 0 && wins(f, fs[k]) ==> resolution(fs, f) == Resolution::Replace(fs[k].id) && step.1
                && contains_fact(step.0, f)
            &&& k >= 0 && !wins(f, fs[k]) ==> step.0 == touch_result(fs, fs[k].id, now) && (step.1
                <==> fs[k].object == f.object)
        }),
{
    let sel = Sel::OpenPair(f.subject, f.predicate);
    lemma_first_index(fs, sel);
    let k = first_index(fs, sel);
    if k < 0 {
        law_import_fact_round_trip(fs, f);
    } else if wins(f, fs[k]) {
        let id = fs[k].id;
        lemma_first_index(fs, Sel::IdIs(id));
        let m = first_index(fs, Sel::IdIs(id));
        lemma_update_wf(fs, m, closed_at(fs[m], f.valid_from));
        law_import_fact_round_trip(close_result(fs, id, f.valid_from), f);
    }
}

/// No open fact earlier in the sequence shares a later fact's subject and
/// predicate.
pub open spec fn no_open_conflicts(bs: Seq<FactView>) -> bool {
    forall|i: int, j: int|
        0 <= i < j < bs.len() && is_open(#[trigger] bs[i]) ==> !(bs[i].subject == #[trigger] bs[j].subject
            && bs[i].predicate == bs[j].predicate)
}

proof fn lemma_roundtrip_prefix(bs: Seq<FactView>, now: Seq<char>, k: int)
    requires
        store_wf(bs),
        no_open_conflicts(bs),
        0 <= k <= bs.len(),
    ensures
        import_all(seq![], bs.take(k), now).0 == bs.take(k),
        import_all(seq![], bs.take(k), now).1 == k,
    decreases k,
{
    if k > 0 {
        lemma_roundtrip_prefix(bs, now, k - 1);
        let pre = bs.take(k - 1);
        let f = bs[k - 1];
        assert(bs.take(k).drop_last() =~= pre);
        assert(bs.take(k).last() == f);
        // no open fact before it shares its subject and predicate
        let sel = Sel::OpenPair(f.subject, f.predicate);
        lemma_first_index(pre, sel);
        if first_index(pre, sel) >= 0 {
            let m = first_index(pre, sel);
            assert(pre[m] == bs[m]);
            assert(picks(sel, bs[m]));
            assert(false);
        }
        assert(resolution(pre, f) == Resolution::Insert);
        // its id is new
        lemma_has_id_first_index(pre, f.id);
        if first_index(pre, Sel::IdIs(f.id)) >= 0 {
            let m = first_index(pre, Sel::IdIs(f.id));
            lemma_first_index(pre, Sel::IdIs(f.id));
            assert(pre[m] == bs[m]);
            assert(false);
        }
        assert(without_id(pre, f.id) == pre);
        // it is recorded no later than every fact before it, so it goes last
        let rb = Sel::RecordedBefore(f.recorded_at);
        lemma_first_index(pre, rb);
        if first_index(pre, rb) >= 0 {
            let m = first_index(pre, rb);
            assert(pre[m] == bs[m]);
            assert(false);
        }
        assert(insert_pos(pre, f.recorded_at) == pre.len());
        assert(insert_sorted(pre, f) =~= bs.take(k));
    }
}

/// Export, then import into an empty store: when no open fact of the
/// exported store shares its subject and predicate with a fact that comes
/// after it (newest first), the new store holds exactly the same facts in
/// the same order, and every one of them is counted as imported.
pub proof fn law_export_import_roundtrip(bs: Seq<FactView>, now: Seq<char>)
    requires
        store_wf(bs),
        no_open_conflicts(bs),
    ensures
        import_all(seq![], bs, now).0 == bs,
        import_all(seq![], bs, now).1 == bs.len(),
{
    lemma_roundtrip_prefix(bs, now, bs.len() as int);
    assert(bs.take(bs.len() as int) =~= bs);
}

} // verus!
