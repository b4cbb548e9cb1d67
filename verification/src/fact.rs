//! The fact record and the options of `remember`.
//!
//! Confidence is held in millionths: `1_000_000` stands for 1.0, `600_000`
//! for 0.6. Timestamps are RFC 3339 strings and are compared as text, as the
//! store always has.

use vstd::prelude::*;
use crate::clock::{VectorClock, ClockView};

verus! {

/// Confidence 1.0, in millionths.
pub const CONFIDENCE_ONE: u64 = 1_000_000;

pub struct Fact {
    pub id: String,
    pub subject: String,
    pub predicate: String,
    pub object: String,
    pub valid_from: String,
    pub valid_until: Option<String>,
    pub recorded_at: String,
    /// In millionths.
    pub confidence: u64,
    pub source: String,
    pub tombstone: bool,
    pub tombstone_reason: Option<String>,
    pub access_count: i64,
    pub last_accessed: Option<String>,
    pub device_id: String,
    pub vector_clock: VectorClock,
}

pub struct FactView {
    pub id: Seq<char>,
    pub subject: Seq<char>,
    pub predicate: Seq<char>,
    pub object: Seq<char>,
    pub valid_from: Seq<char>,
    pub valid_until: Option<Seq<char>>,
    pub recorded_at: Seq<char>,
    pub confidence: u64,
    pub source: Seq<char>,
    pub tombstone: bool,
    pub tombstone_reason: Option<Seq<char>>,
    pub access_count: i64,
    pub last_accessed: Option<Seq<char>>,
    pub device_id: Seq<char>,
    pub vector_clock: ClockView,
}

pub open spec fn opt_view(o: Option<String>) -> Option<Seq<char>> {
    match o {
        Some(s) => Some(s@),
        None => None,
    }
}

pub fn opt_clone(o: &Option<String>) -> (r: Option<String>)
    ensures
        opt_view(r) == opt_view(*o),
{
    match o {
        Some(s) => Some(s.clone()),
        None => None,
    }
}

impl View for Fact {
    type V = FactView;

    open spec fn view(&self) -> FactView {
        FactView {
            id: self.id@,
            subject: self.subject@,
            predicate: self.predicate@,
            object: self.object@,
            valid_from: self.valid_from@,
            valid_until: opt_view(self.valid_until),
            recorded_at: self.recorded_at@,
            confidence: self.confidence,
            source: self.source@,
            tombstone: self.tombstone,
            tombstone_reason: opt_view(self.tombstone_reason),
            access_count: self.access_count,
            last_accessed: opt_view(self.last_accessed),
            device_id: self.device_id@,
            vector_clock: self.vector_clock@,
        }
    }
}

pub open spec fn facts_view(v: Seq<Fact>) -> Seq<FactView> {
    v.map_values(|f: Fact| f@)
}

impl Fact {
    /// A field-by-field copy.
    pub fn duplicate(&self) -> (r: Fact)
        ensures
            r@ == self@,
    {
        Fact {
            id: self.id.clone(),
            subject: self.subject.clone(),
            predicate: self.predicate.clone(),
            object: self.object.clone(),
            valid_from: self.valid_from.clone(),
            valid_until: opt_clone(&self.valid_until),
            recorded_at: self.recorded_at.clone(),
            confidence: self.confidence,
            source: self.source.clone(),
            tombstone: self.tombstone,
            tombstone_reason: opt_clone(&self.tombstone_reason),
            access_count: self.access_count,
            last_accessed: opt_clone(&self.last_accessed),
            device_id: self.device_id.clone(),
            vector_clock: self.vector_clock.duplicate(),
        }
    }
}

/// Copies of every fact, in order.
pub fn duplicate_facts(v: &Vec<Fact>) -> (r: Vec<Fact>)
    ensures
        facts_view(r@) == facts_view(v@),
{
    let mut r: Vec<Fact> = Vec::new();
    let mut i: usize = 0;
    while i < v.len()
        invariant
            i <= v.len(),
            r@.len() == i,
            facts_view(r@) == facts_view(v@).take(i as int),
        decreases v.len() - i,
    {
        let f = v[i].duplicate();
        let ghost old_r = r@;
        r.push(f);
        assert forall|k: int| 0 <= k < i + 1 implies #[trigger] facts_view(r@)[k] == facts_view(
            v@,
        ).take(i + 1)[k] by {
            if k < i {
                assert(facts_view(old_r)[k] == facts_view(v@).take(i as int)[k]);
            }
        }
        i = i + 1;
        assert(facts_view(r@) =~= facts_view(v@).take(i as int));
    }
    assert(facts_view(v@).take(i as int) =~= facts_view(v@));
    r
}

pub struct RememberOptions {
    pub valid_from: Option<String>,
    pub recorded_at: Option<String>,
    /// In millionths.
    pub confidence: Option<u64>,
    pub source: Option<String>,
    pub device_id: Option<String>,
}

pub struct RememberOptionsView {
    pub valid_from: Option<Seq<char>>,
    pub recorded_at: Option<Seq<char>>,
    pub confidence: Option<u64>,
    pub source: Option<Seq<char>>,
    pub device_id: Option<Seq<char>>,
}

impl View for RememberOptions {
    type V = RememberOptionsView;

    open spec fn view(&self) -> RememberOptionsView {
        RememberOptionsView {
            valid_from: opt_view(self.valid_from),
            recorded_at: opt_view(self.recorded_at),
            confidence: self.confidence,
            source: opt_view(self.source),
            device_id: opt_view(self.device_id),
        }
    }
}

impl Default for RememberOptions {
    fn default() -> (r: Self)
        ensures
            r.valid_from is None,
            r.recorded_at is None,
            r.confidence is None,
            r.source is None,
            r.device_id is None,
    {
        RememberOptions {
            valid_from: None,
            recorded_at: None,
            confidence: None,
            source: None,
            device_id: None,
        }
    }
}

} // verus!
