//! The temporal fact table.
//!
//! The store holds its facts newest first by `recorded_at` (facts recorded at
//! the same moment keep the order in which they arrived), with no two facts
//! sharing an id. Every query is a filter of that sequence, so its results
//! come newest first. A contradicted fact is closed by setting
//! `valid_until`; a forgotten fact is tombstoned with a reason. Nothing is
//! ever removed except when a fact is replaced by one with the same id.

use vstd::prelude::*;
use crate::clock::{VectorClock, ClockView, bumped, first_clock, inc_sat};
use crate::fact::{
    Fact, FactView, facts_view, duplicate_facts, opt_clone, opt_view, RememberOptions,
    RememberOptionsView, CONFIDENCE_ONE,
};
use crate::text::{lex_lt, str_lt, owned, lemma_lex_lt_transitive, lemma_lex_lt_irreflexive};
use crate::time::{now_rfc3339, now_timestamp, days_before, days_before_rfc3339, new_fact_id};

verus! {

pub struct Store {
    facts: Vec<Fact>,
    device_id: String,
}

pub struct StoreView {
    pub facts: Seq<FactView>,
    pub device_id: Seq<char>,
}

impl View for Store {
    type V = StoreView;

    closed spec fn view(&self) -> StoreView {
        StoreView { facts: facts_view(self.facts@), device_id: self.device_id@ }
    }
}

/// Newest first: no fact is recorded before a fact that follows it.
pub open spec fn sorted_desc(fs: Seq<FactView>) -> bool {
    forall|i: int, j: int|
        0 <= i < j < fs.len() ==> !lex_lt(#[trigger] fs[i].recorded_at, #[trigger] fs[j].recorded_at)
}

pub open spec fn ids_unique(fs: Seq<FactView>) -> bool {
    forall|i: int, j: int|
        0 <= i < fs.len() && 0 <= j < fs.len() && i != j ==> #[trigger] fs[i].id != #[trigger] fs[j].id
}

pub open spec fn store_wf(fs: Seq<FactView>) -> bool {
    sorted_desc(fs) && ids_unique(fs)
}

/// Neither tombstoned nor closed.
pub open spec fn is_open(f: FactView) -> bool {
    !f.tombstone && f.valid_until is None
}

/// Which facts a query or a search picks.
pub enum Selector {
    /// Not tombstoned.
    Active,
    /// Open facts about a subject.
    OpenAbout(String),
    /// Open facts about a subject with a predicate.
    OpenPair(String, String),
    /// Not tombstoned, recorded at or before the moment, and not closed by it.
    AsOf(String),
    /// Not tombstoned, below the confidence, and not accessed since the cutoff.
    Stale(String, u64),
    /// Recorded strictly before the moment.
    RecordedBefore(String),
    /// The fact with the id.
    IdIs(String),
}

pub enum Sel {
    Active,
    OpenAbout(Seq<char>),
    OpenPair(Seq<char>, Seq<char>),
    AsOf(Seq<char>),
    Stale(Seq<char>, u64),
    RecordedBefore(Seq<char>),
    IdIs(Seq<char>),
}

impl View for Selector {
    type V = Sel;

    open spec fn view(&self) -> Sel {
        match self {
            Selector::Active => Sel::Active,
            Selector::OpenAbout(s) => Sel::OpenAbout(s@),
            Selector::OpenPair(s, p) => Sel::OpenPair(s@, p@),
            Selector::AsOf(t) => Sel::AsOf(t@),
            Selector::Stale(c, m) => Sel::Stale(c@, *m),
            Selector::RecordedBefore(t) => Sel::RecordedBefore(t@),
            Selector::IdIs(id) => Sel::IdIs(id@),
        }
    }
}

pub open spec fn picks(sel: Sel, f: FactView) -> bool {
    match sel {
        Sel::Active => !f.tombstone,
        Sel::OpenAbout(s) => is_open(f) && f.subject == s,
        Sel::OpenPair(s, p) => is_open(f) && f.subject == s && f.predicate == p,
        Sel::AsOf(t) => !f.tombstone && !lex_lt(t, f.recorded_at) && match f.valid_until {
            None => true,
            Some(u) => lex_lt(t, u),
        },
        Sel::Stale(cutoff, max_conf) => !f.tombstone && f.confidence < max_conf
            && match f.last_accessed {
            None => true,
            Some(a) => lex_lt(a, cutoff),
        },
        Sel::RecordedBefore(t) => lex_lt(f.recorded_at, t),
        Sel::IdIs(id) => f.id == id,
    }
}

pub open spec fn pred_of(sel: Sel) -> spec_fn(FactView) -> bool {
    |f: FactView| picks(sel, f)
}

/// Index of the first fact the selector picks, or -1.
pub open spec fn first_index(fs: Seq<FactView>, sel: Sel) -> int
    decreases fs.len(),
{
    if fs.len() == 0 {
        -1
    } else if picks(sel, fs[0]) {
        0
    } else {
        let r = first_index(fs.drop_first(), sel);
        if r < 0 {
            -1
        } else {
            r + 1
        }
    }
}

pub proof fn lemma_first_index(fs: Seq<FactView>, sel: Sel)
    ensures
        -1 <= first_index(fs, sel) < fs.len(),
        first_index(fs, sel) >= 0 ==> picks(sel, fs[first_index(fs, sel)]),
        forall|k: int| 0 <= k < fs.len() && (first_index(fs, sel) < 0 || k < first_index(fs, sel))
            ==> !picks(sel, #[trigger] fs[k]),
    decreases fs.len(),
{
    if fs.len() > 0 && !picks(sel, fs[0]) {
        let t = fs.drop_first();
        lemma_first_index(t, sel);
        assert forall|k: int|
            0 <= k < fs.len() && (first_index(fs, sel) < 0 || k < first_index(fs, sel)) implies !picks(
            sel,
            #[trigger] fs[k],
        ) by {
            if k > 0 {
                assert(fs[k] == t[k - 1]);
            }
        }
    }
}

/// The first index picked is `i` when nothing before `i` is picked and `i` is.
pub proof fn lemma_first_index_is(fs: Seq<FactView>, sel: Sel, i: int)
    requires
        -1 <= i < fs.len(),
        forall|k: int| 0 <= k < fs.len() && (i < 0 || k < i) ==> !picks(sel, #[trigger] fs[k]),
        i >= 0 ==> picks(sel, fs[i]),
    ensures
        first_index(fs, sel) == i,
{
    lemma_first_index(fs, sel);
    let r = first_index(fs, sel);
    if r >= 0 && i >= 0 && r < i {
        assert(!picks(sel, fs[r]));
    } else if r >= 0 && i >= 0 && i < r {
        assert(!picks(sel, fs[i]));
    } else if r >= 0 && i < 0 {
        assert(!picks(sel, fs[r]));
    } else if r < 0 && i >= 0 {
        assert(!picks(sel, fs[i]));
    }
}

/// Where a fact recorded at `rec` goes: before the first fact recorded
/// strictly earlier, or at the end.
pub open spec fn insert_pos(fs: Seq<FactView>, rec: Seq<char>) -> int {
    let k = first_index(fs, Sel::RecordedBefore(rec));
    if k < 0 {
        fs.len() as int
    } else {
        k
    }
}

pub open spec fn insert_sorted(fs: Seq<FactView>, f: FactView) -> Seq<FactView> {
    fs.insert(insert_pos(fs, f.recorded_at), f)
}

pub open spec fn has_id(fs: Seq<FactView>, id: Seq<char>) -> bool {
    exists|k: int| 0 <= k < fs.len() && #[trigger] fs[k].id == id
}

pub proof fn lemma_has_id_first_index(fs: Seq<FactView>, id: Seq<char>)
    ensures
        has_id(fs, id) <==> first_index(fs, Sel::IdIs(id)) >= 0,
{
    lemma_first_index(fs, Sel::IdIs(id));
    if has_id(fs, id) {
        let k = choose|k: int| 0 <= k < fs.len() && #[trigger] fs[k].id == id;
        assert(picks(Sel::IdIs(id), fs[k]));
    }
    if first_index(fs, Sel::IdIs(id)) >= 0 {
        let k = first_index(fs, Sel::IdIs(id));
        assert(fs[k].id == id);
    }
}

pub proof fn lemma_insert_sorted_wf(fs: Seq<FactView>, f: FactView)
    requires
        store_wf(fs),
        !has_id(fs, f.id),
    ensures
        store_wf(insert_sorted(fs, f)),
        insert_sorted(fs, f).len() == fs.len() + 1,
{
    let rec = f.recorded_at;
    let sel = Sel::RecordedBefore(rec);
    lemma_first_index(fs, sel);
    let pos = insert_pos(fs, rec);
    let g = insert_sorted(fs, f);
    assert(g.len() == fs.len() + 1);
    assert forall|i: int, j: int| 0 <= i < j < g.len() implies !lex_lt(
        #[trigger] g[i].recorded_at,
        #[trigger] g[j].recorded_at,
    ) by {
        if i < pos && j < pos {
            assert(g[i] == fs[i] && g[j] == fs[j]);
        } else if i < pos && j == pos {
            assert(g[i] == fs[i]);
            assert(!picks(sel, fs[i]));
        } else if i < pos && j > pos {
            assert(g[i] == fs[i] && g[j] == fs[j - 1]);
        } else if i == pos {
            assert(g[j] == fs[j - 1]);
            assert(pos < fs.len());
            assert(lex_lt(fs[pos].recorded_at, rec));
            if lex_lt(rec, fs[j - 1].recorded_at) {
                lemma_lex_lt_transitive(fs[pos].recorded_at, rec, fs[j - 1].recorded_at);
                if j - 1 == pos {
                    lemma_lex_lt_irreflexive(fs[pos].recorded_at);
                }
            }
        } else {
            assert(g[i] == fs[i - 1] && g[j] == fs[j - 1]);
        }
    }
    assert forall|i: int, j: int|
        0 <= i < g.len() && 0 <= j < g.len() && i != j implies #[trigger] g[i].id
        != #[trigger] g[j].id by {
        if i != pos && j != pos {
            let a = if i < pos {
                i
            } else {
                i - 1
            };
            let b = if j < pos {
                j
            } else {
                j - 1
            };
            assert(g[i] == fs[a] && g[j] == fs[b]);
        } else if i == pos {
            let b = if j < pos {
                j
            } else {
                j - 1
            };
            assert(g[j] == fs[b]);
        } else {
            let a = if i < pos {
                i
            } else {
                i - 1
            };
            assert(g[i] == fs[a]);
        }
    }
}

/// Replacing a fact by one with the same id and recording time keeps the
/// store well formed.
pub proof fn lemma_update_wf(fs: Seq<FactView>, k: int, f: FactView)
    requires
        store_wf(fs),
        0 <= k < fs.len(),
        f.id == fs[k].id,
        f.recorded_at == fs[k].recorded_at,
    ensures
        store_wf(fs.update(k, f)),
{
    let g = fs.update(k, f);
    assert forall|i: int, j: int| 0 <= i < j < g.len() implies !lex_lt(
        #[trigger] g[i].recorded_at,
        #[trigger] g[j].recorded_at,
    ) by {
        assert(g[i].recorded_at == fs[i].recorded_at);
        assert(g[j].recorded_at == fs[j].recorded_at);
    }
    assert forall|i: int, j: int|
        0 <= i < g.len() && 0 <= j < g.len() && i != j implies #[trigger] g[i].id
        != #[trigger] g[j].id by {
        assert(g[i].id == fs[i].id);
        assert(g[j].id == fs[j].id);
    }
}

pub proof fn lemma_remove_wf(fs: Seq<FactView>, k: int)
    requires
        store_wf(fs),
        0 <= k < fs.len(),
    ensures
        store_wf(fs.remove(k)),
{
    let g = fs.remove(k);
    assert forall|i: int, j: int| 0 <= i < j < g.len() implies !lex_lt(
        #[trigger] g[i].recorded_at,
        #[trigger] g[j].recorded_at,
    ) by {
        let a = if i < k {
            i
        } else {
            i + 1
        };
        let b = if j < k {
            j
        } else {
            j + 1
        };
        assert(g[i] == fs[a] && g[j] == fs[b]);
    }
    assert forall|i: int, j: int|
        0 <= i < g.len() && 0 <= j < g.len() && i != j implies #[trigger] g[i].id
        != #[trigger] g[j].id by {
        let a = if i < k {
            i
        } else {
            i + 1
        };
        let b = if j < k {
            j
        } else {
            j + 1
        };
        assert(g[i] == fs[a] && g[j] == fs[b]);
    }
}

impl Selector {
    /// Whether the selector picks `f`.
    pub fn picks_fact(&self, f: &Fact) -> (r: bool)
        ensures
            r == picks(self@, f@),
    {
        match self {
            Selector::Active => !f.tombstone,
            Selector::OpenAbout(s) => !f.tombstone && f.valid_until.is_none() && f.subject == *s,
            Selector::OpenPair(s, p) => !f.tombstone && f.valid_until.is_none() && f.subject == *s
                && f.predicate == *p,
            Selector::AsOf(t) => {
                if f.tombstone || str_lt(t.as_str(), f.recorded_at.as_str()) {
                    false
                } else {
                    match &f.valid_until {
                        None => true,
                        Some(u) => str_lt(t.as_str(), u.as_str()),
                    }
                }
            },
            Selector::Stale(cutoff, max_conf) => {
                if f.tombstone || f.confidence >= *max_conf {
                    false
                } else {
                    match &f.last_accessed {
                        None => true,
                        Some(a) => str_lt(a.as_str(), cutoff.as_str()),
                    }
                }
            },
            Selector::RecordedBefore(t) => str_lt(f.recorded_at.as_str(), t.as_str()),
            Selector::IdIs(id) => f.id == *id,
        }
    }
}

impl Store {
    pub open spec fn wf(&self) -> bool {
        store_wf(self@.facts)
    }

    /// An empty store whose facts default to `device_id`.
    pub fn new(device_id: String) -> (s: Store)
        ensures
            s.wf(),
            s@.facts == Seq::<FactView>::empty(),
            s@.device_id == device_id@,
    {
        let s = Store { facts: Vec::new(), device_id };
        assert(s@.facts =~= Seq::<FactView>::empty());
        s
    }

    /// The device that facts are attributed to when no other is given.
    pub fn device_id(&self) -> (r: String)
        ensures
            r@ == self@.device_id,
    {
        self.device_id.clone()
    }

    /// Index of the first fact that `sel` picks.
    fn first_match(&self, sel: &Selector) -> (r: Option<usize>)
        ensures
            match r {
                Some(k) => first_index(self@.facts, sel@) == k as int,
                None => first_index(self@.facts, sel@) == -1,
            },
    {
        let ghost fs = self@.facts;
        let mut i: usize = 0;
        while i < self.facts.len()
            invariant
                fs == self@.facts,
                fs.len() == self.facts@.len(),
                i <= fs.len(),
                forall|k: int| 0 <= k < i ==> !picks(sel@, #[trigger] fs[k]),
            decreases self.facts.len() - i,
        {
            assert(fs[i as int] == self.facts@[i as int]@);
            if sel.picks_fact(&self.facts[i]) {
                proof {
                    lemma_first_index_is(fs, sel@, i as int);
                }
                return Some(i);
            }
            i = i + 1;
        }
        proof {
            lemma_first_index_is(fs, sel@, -1);
        }
        None
    }

    /// Copies of the facts `sel` picks, in store order.
    fn select(&self, sel: &Selector) -> (r: Vec<Fact>)
        ensures
            facts_view(r@) == self@.facts.filter(pred_of(sel@)),
    {
        let ghost fs = self@.facts;
        let mut r: Vec<Fact> = Vec::new();
        let mut i: usize = 0;
        assert(fs.take(0) =~= Seq::<FactView>::empty());
        reveal(Seq::filter);
        while i < self.facts.len()
            invariant
                fs == self@.facts,
                fs.len() == self.facts@.len(),
                i <= fs.len(),
                facts_view(r@) == fs.take(i as int).filter(pred_of(sel@)),
            decreases self.facts.len() - i,
        {
            assert(fs[i as int] == self.facts@[i as int]@);
            assert(fs.take(i + 1) =~= fs.take(i as int).push(fs[i as int]));
            proof {
                fs.take(i as int).lemma_filter_push(fs[i as int], pred_of(sel@));
            }
            if sel.picks_fact(&self.facts[i]) {
                let f = self.facts[i].duplicate();
                let ghost old_r = r@;
                r.push(f);
                assert(facts_view(r@) =~= facts_view(old_r).push(f@));
            }
            i = i + 1;
        }
        assert(fs.take(i as int) =~= fs);
        r
    }

    /// Every fact that is not tombstoned, newest first. Closed facts are
    /// included.
    pub fn get_active_facts(&self) -> (r: Result<Vec<Fact>, String>)
        ensures
            r matches Ok(v) && facts_view(v@) == self@.facts.filter(pred_of(Sel::Active)),
    {
        Ok(self.select(&Selector::Active))
    }

    /// The open facts about `subject`, newest first.
    pub fn get_active_facts_for(&self, subject: &str) -> (r: Result<Vec<Fact>, String>)
        ensures
            r matches Ok(v) && facts_view(v@) == self@.facts.filter(
                pred_of(Sel::OpenAbout(subject@)),
            ),
    {
        Ok(self.select(&Selector::OpenAbout(owned(subject))))
    }

    /// Point-in-time query: the facts recorded at or before `as_of` that had
    /// not closed by then and are not tombstoned, newest first.
    pub fn facts_as_of(&self, as_of: &str) -> (r: Result<Vec<Fact>, String>)
        ensures
            r matches Ok(v) && facts_view(v@) == self@.facts.filter(pred_of(Sel::AsOf(as_of@))),
    {
        Ok(self.select(&Selector::AsOf(owned(as_of))))
    }

    /// Every fact, tombstoned and closed ones included, newest first.
    pub fn all_facts(&self) -> (r: Result<Vec<Fact>, String>)
        ensures
            r matches Ok(v) && facts_view(v@) == self@.facts,
    {
        Ok(duplicate_facts(&self.facts))
    }

    /// The facts below `max_confidence` that were never accessed or were
    /// last accessed before `cutoff`, and are not tombstoned, newest first.
    pub fn stale_before(&self, cutoff: &str, max_confidence: u64) -> (r: Vec<Fact>)
        ensures
            facts_view(r@) == self@.facts.filter(pred_of(Sel::Stale(cutoff@, max_confidence))),
    {
        self.select(&Selector::Stale(owned(cutoff), max_confidence))
    }

    /// The facts below `max_confidence` not accessed in the `days` days
    /// before the moment `secs` seconds (and `nanos` nanoseconds) after the
    /// Unix epoch: `stale_before` the cutoff `days_before` names. Fails with
    /// "cutoff date out of range" when there is no such cutoff; see
    /// `stale_outcome`.
    pub fn get_stale_facts_at(&self, secs: i64, nanos: u32, days: i64, max_confidence: u64) -> (r: Result<
        Vec<Fact>,
        String,
    >)
        ensures
            stale_outcome(self@.facts, secs, nanos, days, max_confidence, r),
            0 <= secs <= MAX_TIMESTAMP && nanos < 1_000_000_000 && 0 <= days <= MAX_STALE_DAYS ==> r is Ok,
            !days_representable(days) ==> r is Err,
    {
        match days_before_rfc3339(secs, nanos, days) {
            Some(cutoff) => Ok(self.stale_before(cutoff.as_str(), max_confidence)),
            None => Err(owned("cutoff date out of range")),
        }
    }

    /// The facts below `max_confidence` not accessed in the last `days`
    /// days: `get_stale_facts_at` with the clock's reading. It succeeds for
    /// every `days` from 0 to `MAX_STALE_DAYS` and fails with "cutoff date
    /// out of range" for every `days` beyond `days_representable`.
    pub fn get_stale_facts(&self, days: i64, max_confidence: u64) -> (r: Result<Vec<Fact>, String>)
        ensures
            exists|secs: i64, nanos: u32|
                0 <= secs <= MAX_TIMESTAMP && nanos < 1_000_000_000 && #[trigger] stale_outcome(
                    self@.facts,
                    secs,
                    nanos,
                    days,
                    max_confidence,
                    r,
                ),
            r matches Err(e) ==> e@ == cutoff_error(),
            0 <= days <= MAX_STALE_DAYS ==> r is Ok,
            !days_representable(days) ==> r is Err,
    {
        let (secs, nanos) = now_timestamp();
        self.get_stale_facts_at(secs, nanos, days, max_confidence)
    }

    /// The newest open fact about `subject` with `predicate`.
    pub fn find_active(&self, subject: &str, predicate: &str) -> (r: Option<Fact>)
        ensures
            ({
                let k = first_index(self@.facts, Sel::OpenPair(subject@, predicate@));
                match r {
                    Some(f) => k >= 0 && f@ == self@.facts[k],
                    None => k == -1,
                }
            }),
    {
        proof {
            lemma_first_index(self@.facts, Sel::OpenPair(subject@, predicate@));
        }
        match self.first_match(&Selector::OpenPair(owned(subject), owned(predicate))) {
            Some(k) => Some(self.facts[k].duplicate()),
            None => None,
        }
    }
}


pub open spec fn opt_or(o: Option<Seq<char>>, d: Seq<char>) -> Seq<char> {
    match o {
        Some(x) => x,
        None => d,
    }
}

pub open spec fn result_view(r: Result<String, String>) -> Result<Seq<char>, Seq<char>> {
    match r {
        Ok(s) => Ok(s@),
        Err(e) => Err(e@),
    }
}

/// Largest number of days whose seconds fit in chrono's `TimeDelta`
/// (`i64::MAX` milliseconds).
pub const MAX_DELTA_DAYS: i64 = 106_751_991_167;

/// Latest second chrono can represent, as a Unix timestamp:
/// 262142-12-31T23:59:59 UTC.
pub const MAX_TIMESTAMP: i64 = 8_210_266_876_799;

/// Most days before any moment in chrono's range, from 1970 on, that stay
/// in chrono's range (about 262 839 years; chrono's first year is -262143).
pub const MAX_STALE_DAYS: i64 = 96_000_000;

/// A number of days that can be turned into a time span at all.
pub open spec fn days_representable(days: i64) -> bool {
    -MAX_DELTA_DAYS <= days <= MAX_DELTA_DAYS
}

/// The error of a stale-fact query whose cutoff cannot be represented.
pub open spec fn cutoff_error() -> Seq<char> {
    "cutoff date out of range"@
}

/// The stale facts at the cutoff `days` days before the timestamp: those
/// `stale_before` it picks, or the cutoff error when there is no such
/// cutoff.
pub open spec fn stale_outcome(
    fs: Seq<FactView>,
    secs: i64,
    nanos: u32,
    days: i64,
    max_confidence: u64,
    r: Result<Vec<Fact>, String>,
) -> bool {
    match days_before(secs, nanos, days) {
        Some(cutoff) => r matches Ok(v) && facts_view(v@) == fs.filter(pred_of(Sel::Stale(cutoff, max_confidence))),
        None => r matches Err(e) && e@ == cutoff_error(),
    }
}

/// The error a second fact with an existing id meets.
pub open spec fn duplicate_id_error() -> Seq<char> {
    "UNIQUE constraint failed: facts.id"@
}

/// A fact as `remember` first records it: open, untouched, with a clock
/// that has seen one event from its device.
pub open spec fn new_fact(
    id: Seq<char>,
    subject: Seq<char>,
    predicate: Seq<char>,
    object: Seq<char>,
    valid_from: Seq<char>,
    recorded_at: Seq<char>,
    confidence: u64,
    source: Seq<char>,
    device: Seq<char>,
) -> FactView {
    FactView {
        id,
        subject,
        predicate,
        object,
        valid_from,
        valid_until: None,
        recorded_at,
        confidence,
        source,
        tombstone: false,
        tombstone_reason: None,
        access_count: 0,
        last_accessed: None,
        device_id: device,
        vector_clock: first_clock(device),
    }
}

/// The same fact stated again: the larger confidence, one more access, and
/// one more event from `device` on its clock.
pub open spec fn reinforced(f: FactView, confidence: u64, device: Seq<char>) -> FactView {
    FactView {
        confidence: if f.confidence >= confidence {
            f.confidence
        } else {
            confidence
        },
        access_count: inc_sat(f.access_count),
        vector_clock: bumped(f.vector_clock, device),
        ..f
    }
}

/// A fact closed at `until`.
pub open spec fn closed_at(f: FactView, until: Seq<char>) -> FactView {
    FactView { valid_until: Some(until), ..f }
}

/// A fact returned by a query: one more access, last accessed `now`.
pub open spec fn touched(f: FactView, now: Seq<char>) -> FactView {
    FactView { access_count: inc_sat(f.access_count), last_accessed: Some(now), ..f }
}

/// A forgotten fact: tombstoned, with the reason kept.
pub open spec fn buried(f: FactView, reason: Seq<char>) -> FactView {
    FactView { tombstone: true, tombstone_reason: Some(reason), ..f }
}

/// The facts, and the result, after `remember` with the given moment and
/// fresh id. When the newest open fact with the subject and predicate has
/// the same object, it is reinforced and its id returned. Otherwise that
/// fact, if any, is closed at the new fact's `valid_from`, and the new fact
/// is added, unless its id is taken.
pub open spec fn remember_result(
    fs: Seq<FactView>,
    default_device: Seq<char>,
    subject: Seq<char>,
    predicate: Seq<char>,
    object: Seq<char>,
    opts: RememberOptionsView,
    now: Seq<char>,
    new_id: Seq<char>,
) -> (Seq<FactView>, Result<Seq<char>, Seq<char>>) {
    let valid_from = opt_or(opts.valid_from, now);
    let recorded_at = opt_or(opts.recorded_at, now);
    let confidence = match opts.confidence {
        Some(c) => c,
        None => CONFIDENCE_ONE,
    };
    let source = opt_or(opts.source, "user"@);
    let device = opt_or(opts.device_id, default_device);
    let k = first_index(fs, Sel::OpenPair(subject, predicate));
    if k >= 0 && fs[k].object == object {
        (fs.update(k, reinforced(fs[k], confidence, device)), Ok(fs[k].id))
    } else {
        let closed = if k >= 0 {
            fs.update(k, closed_at(fs[k], valid_from))
        } else {
            fs
        };
        if has_id(closed, new_id) {
            (closed, Err(duplicate_id_error()))
        } else {
            (
                insert_sorted(
                    closed,
                    new_fact(
                        new_id,
                        subject,
                        predicate,
                        object,
                        valid_from,
                        recorded_at,
                        confidence,
                        source,
                        device,
                    ),
                ),
                Ok(new_id),
            )
        }
    }
}

/// The facts after the fact with `id`, if any, is touched at `now`.
pub open spec fn touch_result(fs: Seq<FactView>, id: Seq<char>, now: Seq<char>) -> Seq<FactView> {
    let k = first_index(fs, Sel::IdIs(id));
    if k >= 0 {
        fs.update(k, touched(fs[k], now))
    } else {
        fs
    }
}

/// The facts after the fact with `id`, if any, is tombstoned for `reason`.
pub open spec fn tombstone_result(fs: Seq<FactView>, id: Seq<char>, reason: Seq<char>) -> Seq<
    FactView,
> {
    let k = first_index(fs, Sel::IdIs(id));
    if k >= 0 {
        fs.update(k, buried(fs[k], reason))
    } else {
        fs
    }
}

/// The facts after the fact with `id`, if any, is closed at `until`.
pub open spec fn close_result(fs: Seq<FactView>, id: Seq<char>, until: Seq<char>) -> Seq<FactView> {
    let k = first_index(fs, Sel::IdIs(id));
    if k >= 0 {
        fs.update(k, closed_at(fs[k], until))
    } else {
        fs
    }
}

/// The facts without the one with `id`, if any.
pub open spec fn without_id(fs: Seq<FactView>, id: Seq<char>) -> Seq<FactView> {
    let k = first_index(fs, Sel::IdIs(id));
    if k >= 0 {
        fs.remove(k)
    } else {
        fs
    }
}

/// Insert or replace: the fact takes the place of any fact with its id.
pub open spec fn import_result(fs: Seq<FactView>, f: FactView) -> Seq<FactView> {
    insert_sorted(without_id(fs, f.id), f)
}

pub proof fn lemma_without_id(fs: Seq<FactView>, id: Seq<char>)
    requires
        store_wf(fs),
    ensures
        store_wf(without_id(fs, id)),
        !has_id(without_id(fs, id), id),
{
    let sel = Sel::IdIs(id);
    lemma_first_index(fs, sel);
    let k = first_index(fs, sel);
    let g = without_id(fs, id);
    if k >= 0 {
        lemma_remove_wf(fs, k);
        if has_id(g, id) {
            let j = choose|j: int| 0 <= j < g.len() && #[trigger] g[j].id == id;
            let a = if j < k {
                j
            } else {
                j + 1
            };
            assert(g[j] == fs[a]);
            assert(fs[k].id == id);
        }
    } else {
        if has_id(g, id) {
            let j = choose|j: int| 0 <= j < g.len() && #[trigger] g[j].id == id;
            assert(!picks(sel, fs[j]));
        }
    }
}

impl Store {
    /// Put a fact at its place in recording order.
    fn insert_fact(&mut self, f: Fact)
        requires
            old(self).wf(),
            !has_id(old(self)@.facts, f@.id),
        ensures
            final(self).wf(),
            final(self)@.facts == insert_sorted(old(self)@.facts, f@),
            final(self)@.device_id == old(self)@.device_id,
    {
        proof {
            lemma_first_index(self@.facts, Sel::RecordedBefore(f@.recorded_at));
            lemma_insert_sorted_wf(self@.facts, f@);
        }
        let pos = match self.first_match(&Selector::RecordedBefore(f.recorded_at.clone())) {
            Some(k) => k,
            None => self.facts.len(),
        };
        let ghost fv = f@;
        let ghost before = self.facts@;
        self.facts.insert(pos, f);
        assert(facts_view(self.facts@) =~= facts_view(before).insert(pos as int, fv));
    }

    /// Replace the fact at `k` by `f`.
    fn replace_at(&mut self, k: usize, f: Fact)
        requires
            old(self).wf(),
            k < old(self)@.facts.len(),
            f@.id == old(self)@.facts[k as int].id,
            f@.recorded_at == old(self)@.facts[k as int].recorded_at,
        ensures
            final(self).wf(),
            final(self)@.facts == old(self)@.facts.update(k as int, f@),
            final(self)@.device_id == old(self)@.device_id,
    {
        proof {
            lemma_update_wf(self@.facts, k as int, f@);
        }
        let ghost fv = f@;
        let ghost before = self.facts@;
        self.facts.set(k, f);
        assert(facts_view(self.facts@) =~= facts_view(before).update(k as int, fv));
    }

    /// `remember` at a given moment and with a given fresh id: see
    /// `remember_result`.
    pub fn remember_at(
        &mut self,
        subject: &str,
        predicate: &str,
        object: &str,
        opts: RememberOptions,
        now: &str,
        new_id: &str,
    ) -> (r: Result<String, String>)
        requires
            old(self).wf(),
        ensures
            final(self).wf(),
            final(self)@.device_id == old(self)@.device_id,
            (final(self)@.facts, result_view(r)) == remember_result(
                old(self)@.facts,
                old(self)@.device_id,
                subject@,
                predicate@,
                object@,
                opts@,
                now@,
                new_id@,
            ),
    {
        let ghost fs = self@.facts;
        let ghost ov = opts@;
        let valid_from = match opts.valid_from {
            Some(v) => v,
            None => owned(now),
        };
        let recorded_at = match opts.recorded_at {
            Some(v) => v,
            None => owned(now),
        };
        let confidence = match opts.confidence {
            Some(c) => c,
            None => CONFIDENCE_ONE,
        };
        let source = match opts.source {
            Some(v) => v,
            None => owned("user"),
        };
        let device = match opts.device_id {
            Some(v) => v,
            None => self.device_id.clone(),
        };
        let object_s = owned(object);
        proof {
            lemma_first_index(fs, Sel::OpenPair(subject@, predicate@));
        }
        match self.first_match(&Selector::OpenPair(owned(subject), owned(predicate))) {
            Some(k) => {
                assert(fs[k as int] == self.facts@[k as int]@);
                if self.facts[k].object == object_s {
                    let old_f = self.facts[k].duplicate();
                    let id = old_f.id.clone();
                    let new_conf = if old_f.confidence >= confidence {
                        old_f.confidence
                    } else {
                        confidence
                    };
                    let count = if old_f.access_count < i64::MAX {
                        old_f.access_count + 1
                    } else {
                        old_f.access_count
                    };
                    let clock = old_f.vector_clock.bump(&device);
                    let f = Fact {
                        confidence: new_conf,
                        access_count: count,
                        vector_clock: clock,
                        ..old_f
                    };
                    assert(f@ == reinforced(fs[k as int], confidence, device@));
                    self.replace_at(k, f);
                    return Ok(id);
                } else {
                    let mut f = self.facts[k].duplicate();
                    f.valid_until = Some(valid_from.clone());
                    assert(f@ == closed_at(fs[k as int], valid_from@));
                    self.replace_at(k, f);
                }
            },
            None => {},
        }
        let id = owned(new_id);
        proof {
            lemma_has_id_first_index(self@.facts, id@);
        }
        if self.first_match(&Selector::IdIs(id.clone())).is_some() {
            return Err(owned("UNIQUE constraint failed: facts.id"));
        }
        let f = Fact {
            id: id.clone(),
            subject: owned(subject),
            predicate: owned(predicate),
            object: object_s,
            valid_from,
            valid_until: None,
            recorded_at,
            confidence,
            source,
            tombstone: false,
            tombstone_reason: None,
            access_count: 0,
            last_accessed: None,
            vector_clock: VectorClock::first(&device),
            device_id: device,
        };
        self.insert_fact(f);
        Ok(id)
    }

    /// Store a fact. When the newest open fact with this subject and
    /// predicate has the same object, it is reinforced (larger confidence,
    /// one more access, clock advanced) and its id returned. When the object
    /// differs, that fact is closed at the new fact's `valid_from` (never
    /// deleted) and a new fact with a fresh 36-character id is added. Unset options
    /// default to the current time, confidence 1.0, source "user" and the
    /// store's device.
    pub fn remember(&mut self, subject: &str, predicate: &str, object: &str, opts: RememberOptions) -> (r:
        Result<String, String>)
        requires
            old(self).wf(),
        ensures
            final(self).wf(),
            final(self)@.device_id == old(self)@.device_id,
            exists|now: Seq<char>, new_id: Seq<char>|
                new_id.len() == 36 && (final(self)@.facts, result_view(r)) == #[trigger] remember_result(
                    old(self)@.facts,
                    old(self)@.device_id,
                    subject@,
                    predicate@,
                    object@,
                    opts@,
                    now,
                    new_id,
                ),
    {
        let now = now_rfc3339();
        let id = new_fact_id();
        self.remember_at(subject, predicate, object, opts, now.as_str(), id.as_str())
    }

    /// Count one more access to the fact with `fact_id` and record `now`
    /// as its last access. No other fact changes.
    pub fn touch_at(&mut self, fact_id: &str, now: &str)
        requires
            old(self).wf(),
        ensures
            final(self).wf(),
            final(self)@.device_id == old(self)@.device_id,
            final(self)@.facts == touch_result(old(self)@.facts, fact_id@, now@),
    {
        let ghost fs = self@.facts;
        proof {
            lemma_first_index(fs, Sel::IdIs(fact_id@));
        }
        match self.first_match(&Selector::IdIs(owned(fact_id))) {
            Some(k) => {
                assert(fs[k as int] == self.facts@[k as int]@);
                let mut f = self.facts[k].duplicate();
                if f.access_count < i64::MAX {
                    f.access_count = f.access_count + 1;
                }
                f.last_accessed = Some(owned(now));
                assert(f@ == touched(fs[k as int], now@));
                self.replace_at(k, f);
            },
            None => {},
        }
    }

    /// `touch_at` with the current time.
    pub fn touch(&mut self, fact_id: &str) -> (r: Result<(), String>)
        requires
            old(self).wf(),
        ensures
            r is Ok,
            final(self).wf(),
            final(self)@.device_id == old(self)@.device_id,
            exists|now: Seq<char>| final(self)@.facts == touch_result(old(self)@.facts, fact_id@, now),
    {
        let now = now_rfc3339();
        self.touch_at(fact_id, now.as_str());
        Ok(())
    }

    /// Soft delete: the fact with `fact_id` is marked tombstoned and keeps
    /// `reason`; it stays in the store for audit.
    pub fn tombstone(&mut self, fact_id: &str, reason: &str) -> (r: Result<(), String>)
        requires
            old(self).wf(),
        ensures
            r is Ok,
            final(self).wf(),
            final(self)@.device_id == old(self)@.device_id,
            final(self)@.facts == tombstone_result(old(self)@.facts, fact_id@, reason@),
    {
        let ghost fs = self@.facts;
        proof {
            lemma_first_index(fs, Sel::IdIs(fact_id@));
        }
        match self.first_match(&Selector::IdIs(owned(fact_id))) {
            Some(k) => {
                assert(fs[k as int] == self.facts@[k as int]@);
                let mut f = self.facts[k].duplicate();
                f.tombstone = true;
                f.tombstone_reason = Some(owned(reason));
                assert(f@ == buried(fs[k as int], reason@));
                self.replace_at(k, f);
            },
            None => {},
        }
        Ok(())
    }

    /// Close the fact with `fact_id`: it stays, valid until `until`. No
    /// other fact changes.
    pub fn close_at(&mut self, fact_id: &str, until: &str)
        requires
            old(self).wf(),
        ensures
            final(self).wf(),
            final(self)@.device_id == old(self)@.device_id,
            final(self)@.facts == close_result(old(self)@.facts, fact_id@, until@),
    {
        let ghost fs = self@.facts;
        proof {
            lemma_first_index(fs, Sel::IdIs(fact_id@));
        }
        match self.first_match(&Selector::IdIs(owned(fact_id))) {
            Some(k) => {
                assert(fs[k as int] == self.facts@[k as int]@);
                let mut f = self.facts[k].duplicate();
                f.valid_until = Some(owned(until));
                assert(f@ == closed_at(fs[k as int], until@));
                self.replace_at(k, f);
            },
            None => {},
        }
    }

    /// Insert or replace: the fact, with all its fields, takes the place of
    /// any fact with the same id.
    pub fn import_fact(&mut self, fact: &Fact) -> (r: Result<(), String>)
        requires
            old(self).wf(),
        ensures
            r is Ok,
            final(self).wf(),
            final(self)@.device_id == old(self)@.device_id,
            final(self)@.facts == import_result(old(self)@.facts, fact@),
    {
        let ghost fs = self@.facts;
        proof {
            lemma_first_index(fs, Sel::IdIs(fact@.id));
            lemma_without_id(fs, fact@.id);
        }
        match self.first_match(&Selector::IdIs(fact.id.clone())) {
            Some(k) => {
                proof {
                    lemma_remove_wf(fs, k as int);
                }
                let ghost before = self.facts@;
                self.facts.remove(k);
                assert(facts_view(self.facts@) =~= facts_view(before).remove(k as int));
            },
            None => {},
        }
        self.insert_fact(fact.duplicate());
        Ok(())
    }
}


/// At most one open fact has this subject and predicate.
pub open spec fn at_most_one_open(fs: Seq<FactView>, subject: Seq<char>, predicate: Seq<char>) -> bool {
    forall|i: int, j: int|
        0 <= i < fs.len() && 0 <= j < fs.len() && picks(Sel::OpenPair(subject, predicate), #[trigger] fs[i])
            && picks(Sel::OpenPair(subject, predicate), #[trigger] fs[j]) ==> i == j
}

pub open spec fn contains_fact(fs: Seq<FactView>, f: FactView) -> bool {
    exists|i: int| 0 <= i < fs.len() && #[trigger] fs[i] == f
}

proof fn lemma_insert_keeps(fs: Seq<FactView>, f: FactView)
    ensures
        forall|j: int| 0 <= j < fs.len() ==> contains_fact(insert_sorted(fs, f), #[trigger] fs[j]),
        contains_fact(insert_sorted(fs, f), f),
{
    lemma_first_index(fs, Sel::RecordedBefore(f.recorded_at));
    let pos = insert_pos(fs, f.recorded_at);
    let g = insert_sorted(fs, f);
    assert forall|j: int| 0 <= j < fs.len() implies contains_fact(g, #[trigger] fs[j]) by {
        if j < pos {
            assert(g[j] == fs[j]);
        } else {
            assert(g[j + 1] == fs[j]);
        }
    }
    assert(g[pos] == f);
}

/// Importing a fact is an insert-or-replace: afterwards the store holds the
/// fact exactly once under its id, field for field, every fact with another
/// id that was there is still there unchanged, nothing else came in, and the
/// store grew by one row only when no fact had that id before.
pub proof fn law_import_fact_round_trip(fs: Seq<FactView>, f: FactView)
    requires
        store_wf(fs),
    ensures
        ({
            let after = import_result(fs, f);
            &&& store_wf(after)
            &&& contains_fact(after, f)
            &&& forall|i: int| 0 <= i < after.len() && #[trigger] after[i].id == f.id ==> after[i] == f
            &&& forall|j: int| 0 <= j < fs.len() && #[trigger] fs[j].id != f.id ==> contains_fact(after, fs[j])
            &&& forall|i: int| 0 <= i < after.len() && #[trigger] after[i].id != f.id ==> contains_fact(fs, after[i])
            &&& after.len() == if has_id(fs, f.id) {
                fs.len()
            } else {
                fs.len() + 1
            }
        }),
{
    let id = f.id;
    let w = without_id(fs, id);
    let after = import_result(fs, f);
    let k0 = first_index(fs, Sel::IdIs(id));
    lemma_first_index(fs, Sel::IdIs(id));
    lemma_has_id_first_index(fs, id);
    lemma_without_id(fs, id);
    lemma_insert_sorted_wf(w, f);
    lemma_insert_keeps(w, f);
    lemma_first_index(w, Sel::RecordedBefore(f.recorded_at));
    let pos = insert_pos(w, f.recorded_at);
    assert(after == w.insert(pos, f));
    assert(after[pos] == f);
    assert forall|i: int| 0 <= i < after.len() && #[trigger] after[i].id == f.id implies after[i] == f by {
        if i != pos {
            assert(after[i].id != after[pos].id);
        }
    }
    assert forall|j: int| 0 <= j < fs.len() && #[trigger] fs[j].id != f.id implies contains_fact(after, fs[j]) by {
        if k0 >= 0 {
            assert(j != k0);
            let m = if j < k0 {
                j
            } else {
                j - 1
            };
            assert(w[m] == fs[j]);
        } else {
            assert(w[j] == fs[j]);
        }
    }
    assert forall|i: int| 0 <= i < after.len() && #[trigger] after[i].id != f.id implies contains_fact(fs, after[i]) by {
        let m = if i < pos {
            i
        } else {
            i - 1
        };
        assert(after[i] == w[m]);
        if k0 >= 0 {
            let n = if m < k0 {
                m
            } else {
                m + 1
            };
            assert(w[m] == fs[n]);
        } else {
            assert(w[m] == fs[m]);
        }
    }
}

/// Contradiction is not deletion: after `remember`, every fact that was in
/// the store is still there, unchanged, except the newest open fact with the
/// same subject and predicate, which is either reinforced (same object) or
/// closed at the new fact's `valid_from` (other object).
pub proof fn law_remember_keeps_every_fact(
    fs: Seq<FactView>,
    device: Seq<char>,
    subject: Seq<char>,
    predicate: Seq<char>,
    object: Seq<char>,
    opts: RememberOptionsView,
    now: Seq<char>,
    new_id: Seq<char>,
)
    requires
        store_wf(fs),
    ensures
        ({
            let (after, _) = remember_result(fs, device, subject, predicate, object, opts, now, new_id);
            let k = first_index(fs, Sel::OpenPair(subject, predicate));
            &&& after.len() >= fs.len()
            &&& forall|j: int| 0 <= j < fs.len() && j != k ==> contains_fact(after, #[trigger] fs[j])
            &&& k >= 0 && fs[k].object == object ==> contains_fact(
                after,
                reinforced(fs[k], opts.confidence.unwrap_or(CONFIDENCE_ONE), opt_or(opts.device_id, device)),
            )
            &&& k >= 0 && fs[k].object != object ==> contains_fact(
                after,
                closed_at(fs[k], opt_or(opts.valid_from, now)),
            )
        }),
{
    lemma_first_index(fs, Sel::OpenPair(subject, predicate));
    let k = first_index(fs, Sel::OpenPair(subject, predicate));
    let vf = opt_or(opts.valid_from, now);
    let (after, _) = remember_result(fs, device, subject, predicate, object, opts, now, new_id);
    if k >= 0 && fs[k].object == object {
        let u = fs.update(k, reinforced(fs[k], opts.confidence.unwrap_or(CONFIDENCE_ONE), opt_or(opts.device_id, device)));
        assert(after == u);
        assert forall|j: int| 0 <= j < fs.len() && j != k implies contains_fact(after, #[trigger] fs[j]) by {
            assert(after[j] == fs[j]);
        }
        assert(after[k] == u[k]);
    } else {
        let closed = if k >= 0 {
            fs.update(k, closed_at(fs[k], vf))
        } else {
            fs
        };
        assert forall|j: int| 0 <= j < fs.len() && j != k implies contains_fact(closed, #[trigger] fs[j]) by {
            assert(closed[j] == fs[j]);
        }
        if k >= 0 {
            assert(closed[k] == closed_at(fs[k], vf));
        }
        if !has_id(closed, new_id) {
            let nf = new_fact(
                new_id,
                subject,
                predicate,
                object,
                vf,
                opt_or(opts.recorded_at, now),
                opts.confidence.unwrap_or(CONFIDENCE_ONE),
                opt_or(opts.source, "user"@),
                opt_or(opts.device_id, device),
            );
            lemma_first_index(closed, Sel::RecordedBefore(nf.recorded_at));
            lemma_insert_keeps(closed, nf);
            assert forall|j: int| 0 <= j < fs.len() && j != k implies contains_fact(after, #[trigger] fs[j]) by {
                let i = choose|i: int| 0 <= i < closed.len() && #[trigger] closed[i] == fs[j];
                assert(contains_fact(after, closed[i]));
            }
            if k >= 0 {
                assert(contains_fact(after, closed[k]));
            }
        }
    }
}

/// A fact is recorded when the system learns it: when `remember` adds a new
/// fact (it answers with the fresh id, which no fact had), that fact holds
/// the subject, predicate and object, is open and untouched, took effect at
/// the `valid_from` given (else at `now`), and was recorded at the
/// `recorded_at` given, else at `now`, whatever `valid_from` says. Its
/// confidence is the one given, else 1.0, its source the one given, else
/// "user", and its device the one given, else the store's.
pub proof fn law_remember_records_when_learned(
    fs: Seq<FactView>,
    device: Seq<char>,
    subject: Seq<char>,
    predicate: Seq<char>,
    object: Seq<char>,
    opts: RememberOptionsView,
    now: Seq<char>,
    new_id: Seq<char>,
)
    requires
        store_wf(fs),
    ensures
        ({
            let (after, r) = remember_result(fs, device, subject, predicate, object, opts, now, new_id);
            (r == Ok::<Seq<char>, Seq<char>>(new_id) && !has_id(fs, new_id)) ==> exists|i: int|
                0 <= i < after.len() && #[trigger] after[i].id == new_id && after[i].subject == subject
                    && after[i].predicate == predicate && after[i].object == object
                    && after[i].valid_until is None && !after[i].tombstone
                    && after[i].access_count == 0 && after[i].last_accessed is None
                    && after[i].recorded_at == (match opts.recorded_at {
                    Some(t) => t,
                    None => now,
                }) && after[i].valid_from == (match opts.valid_from {
                    Some(t) => t,
                    None => now,
                }) && after[i].confidence == (match opts.confidence {
                    Some(c) => c,
                    None => 1_000_000,
                }) && after[i].source == (match opts.source {
                    Some(t) => t,
                    None => "user"@,
                }) && after[i].device_id == (match opts.device_id {
                    Some(t) => t,
                    None => device,
                })
        }),
{
    let sel = Sel::OpenPair(subject, predicate);
    lemma_first_index(fs, sel);
    let k = first_index(fs, sel);
    let vf = opt_or(opts.valid_from, now);
    let (after, r) = remember_result(fs, device, subject, predicate, object, opts, now, new_id);
    if r == Ok::<Seq<char>, Seq<char>>(new_id) && !has_id(fs, new_id) {
        if k >= 0 && fs[k].object == object {
            assert(fs[k].id == new_id);
            assert(false);
        }
        let closed = if k >= 0 {
            fs.update(k, closed_at(fs[k], vf))
        } else {
            fs
        };
        let nf = new_fact(
            new_id,
            subject,
            predicate,
            object,
            vf,
            opt_or(opts.recorded_at, now),
            opts.confidence.unwrap_or(CONFIDENCE_ONE),
            opt_or(opts.source, "user"@),
            opt_or(opts.device_id, device),
        );
        lemma_first_index(closed, Sel::RecordedBefore(nf.recorded_at));
        let pos = insert_pos(closed, nf.recorded_at);
        assert(!has_id(closed, new_id));
        assert(after == insert_sorted(closed, nf));
        assert(after[pos] == nf);
        assert(after[pos].id == new_id);
    }
}

/// Read after write: when `remember` succeeds, the id it returns names an
/// open fact with the given subject, predicate and object. When the store
/// held at most one open fact for the subject and predicate, it still does,
/// and that fact is the one `find_active` returns.
pub proof fn law_remember_then_find_active(
    fs: Seq<FactView>,
    device: Seq<char>,
    subject: Seq<char>,
    predicate: Seq<char>,
    object: Seq<char>,
    opts: RememberOptionsView,
    now: Seq<char>,
    new_id: Seq<char>,
)
    requires
        store_wf(fs),
    ensures
        ({
            let (after, r) = remember_result(fs, device, subject, predicate, object, opts, now, new_id);
            &&& r matches Ok(id) ==> exists|i: int|
                0 <= i < after.len() && #[trigger] after[i].id == id && is_open(after[i])
                    && after[i].subject == subject && after[i].predicate == predicate
                    && after[i].object == object
            &&& (r is Ok && at_most_one_open(fs, subject, predicate)) ==> {
                let k2 = first_index(after, Sel::OpenPair(subject, predicate));
                &&& at_most_one_open(after, subject, predicate)
                &&& k2 >= 0
                &&& r == Ok::<Seq<char>, Seq<char>>(after[k2].id)
                &&& after[k2].object == object
            }
        }),
{
    let sel = Sel::OpenPair(subject, predicate);
    lemma_first_index(fs, sel);
    let k = first_index(fs, sel);
    let vf = opt_or(opts.valid_from, now);
    let (after, r) = remember_result(fs, device, subject, predicate, object, opts, now, new_id);
    if k >= 0 && fs[k].object == object {
        assert(after[k].id == fs[k].id);
        assert(picks(sel, fs[k]));
        assert(is_open(after[k]) && after[k].subject == subject && after[k].predicate == predicate);
        if at_most_one_open(fs, subject, predicate) {
            assert forall|i: int, j: int|
                0 <= i < after.len() && 0 <= j < after.len() && picks(sel, #[trigger] after[i])
                    && picks(sel, #[trigger] after[j]) implies i == j by {
                assert(picks(sel, fs[i]));
                assert(picks(sel, fs[j]));
            }
            lemma_first_index(after, sel);
            let k2 = first_index(after, sel);
            assert(picks(sel, after[k]));
            if k2 != k {
                assert(picks(sel, after[k2]));
            }
        }
    } else {
        let closed = if k >= 0 {
            fs.update(k, closed_at(fs[k], vf))
        } else {
            fs
        };
        if !has_id(closed, new_id) {
            let nf = new_fact(
                new_id,
                subject,
                predicate,
                object,
                vf,
                opt_or(opts.recorded_at, now),
                opts.confidence.unwrap_or(CONFIDENCE_ONE),
                opt_or(opts.source, "user"@),
                opt_or(opts.device_id, device),
            );
            lemma_first_index(closed, Sel::RecordedBefore(nf.recorded_at));
            let pos = insert_pos(closed, nf.recorded_at);
            assert(after[pos] == nf);
            assert(after[pos].id == new_id && is_open(after[pos]));
            if at_most_one_open(fs, subject, predicate) {
                // no open fact for the pair is left in `closed`
                assert forall|i: int| 0 <= i < closed.len() implies !picks(sel, #[trigger] closed[i]) by {
                    if k >= 0 && i == k {
                    } else if k >= 0 {
                        assert(closed[i] == fs[i]);
                        if picks(sel, fs[i]) {
                            assert(picks(sel, fs[k]));
                        }
                    } else {
                        assert(!picks(sel, fs[i]));
                    }
                }
                assert forall|i: int, j: int|
                    0 <= i < after.len() && 0 <= j < after.len() && picks(sel, #[trigger] after[i])
                        && picks(sel, #[trigger] after[j]) implies i == j by {
                    if i != pos {
                        let a = if i < pos { i } else { i - 1 };
                        assert(after[i] == closed[a]);
                    }
                    if j != pos {
                        let b = if j < pos { j } else { j - 1 };
                        assert(after[j] == closed[b]);
                    }
                }
                lemma_first_index(after, sel);
                let k2 = first_index(after, sel);
                assert(picks(sel, after[pos]));
                if k2 != pos {
                    assert(picks(sel, after[k2]));
                }
            }
        }
    }
}

/// Stating a fact again does not duplicate it: when the newest open fact
/// with the subject and predicate already has the object, `remember` adds
/// no fact, returns that fact's id, and leaves it with the larger of the
/// two confidences and one more access.
pub proof fn law_same_fact_not_duplicated(
    fs: Seq<FactView>,
    device: Seq<char>,
    subject: Seq<char>,
    predicate: Seq<char>,
    object: Seq<char>,
    opts: RememberOptionsView,
    now: Seq<char>,
    new_id: Seq<char>,
)
    requires
        store_wf(fs),
        first_index(fs, Sel::OpenPair(subject, predicate)) >= 0,
        fs[first_index(fs, Sel::OpenPair(subject, predicate))].object == object,
    ensures
        ({
            let (after, r) = remember_result(fs, device, subject, predicate, object, opts, now, new_id);
            let k = first_index(fs, Sel::OpenPair(subject, predicate));
            let c = opts.confidence.unwrap_or(CONFIDENCE_ONE);
            &&& after.len() == fs.len()
            &&& r == Ok::<Seq<char>, Seq<char>>(fs[k].id)
            &&& forall|j: int| 0 <= j < fs.len() && j != k ==> #[trigger] after[j] == fs[j]
            &&& after[k].id == fs[k].id
            &&& after[k].object == object
            &&& after[k].confidence >= c
            &&& after[k].confidence >= fs[k].confidence
            &&& (after[k].confidence == c || after[k].confidence == fs[k].confidence)
            &&& after[k].access_count == inc_sat(fs[k].access_count)
        }),
{
    lemma_first_index(fs, Sel::OpenPair(subject, predicate));
}

/// At most one open fact per subject and predicate: when the store holds
/// at most one open fact for the pair `remember` is given and for a pair
/// (`x`, `q`), it still holds at most one for (`x`, `q`) afterwards,
/// whatever `remember` answers. Applied to every pair, the invariant is
/// kept.
pub proof fn law_remember_keeps_one_open_per_pair(
    fs: Seq<FactView>,
    device: Seq<char>,
    subject: Seq<char>,
    predicate: Seq<char>,
    object: Seq<char>,
    opts: RememberOptionsView,
    now: Seq<char>,
    new_id: Seq<char>,
    x: Seq<char>,
    q: Seq<char>,
)
    requires
        store_wf(fs),
        at_most_one_open(fs, subject, predicate),
        at_most_one_open(fs, x, q),
    ensures
        at_most_one_open(remember_result(fs, device, subject, predicate, object, opts, now, new_id).0, x, q),
{
    let sel = Sel::OpenPair(subject, predicate);
    let sq = Sel::OpenPair(x, q);
    lemma_first_index(fs, sel);
    let k = first_index(fs, sel);
    let vf = opt_or(opts.valid_from, now);
    let after = remember_result(fs, device, subject, predicate, object, opts, now, new_id).0;
    if k >= 0 && fs[k].object == object {
        assert forall|i: int, j: int|
            0 <= i < after.len() && 0 <= j < after.len() && picks(sq, #[trigger] after[i])
                && picks(sq, #[trigger] after[j]) implies i == j by {
            assert(picks(sq, fs[i]));
            assert(picks(sq, fs[j]));
        }
    } else {
        let closed = if k >= 0 {
            fs.update(k, closed_at(fs[k], vf))
        } else {
            fs
        };
        assert forall|i: int| 0 <= i < closed.len() && picks(sq, #[trigger] closed[i]) implies picks(sq, fs[i]) by {
            if k >= 0 && i == k {
            } else {
                assert(closed[i] == fs[i]);
            }
        }
        if !has_id(closed, new_id) {
            let nf = new_fact(
                new_id,
                subject,
                predicate,
                object,
                vf,
                opt_or(opts.recorded_at, now),
                opts.confidence.unwrap_or(CONFIDENCE_ONE),
                opt_or(opts.source, "user"@),
                opt_or(opts.device_id, device),
            );
            lemma_first_index(closed, Sel::RecordedBefore(nf.recorded_at));
            let pos = insert_pos(closed, nf.recorded_at);
            assert(after == closed.insert(pos, nf));
            if x == subject && q == predicate {
                // the pair's one open fact, if any, was closed
                assert forall|i: int| 0 <= i < closed.len() implies !picks(sq, #[trigger] closed[i]) by {
                    if picks(sq, closed[i]) {
                        assert(picks(sq, fs[i]));
                        assert(k >= 0);
                        assert(picks(sq, fs[k]));
                        assert(i == k);
                    }
                }
            }
            assert forall|i: int, j: int|
                0 <= i < after.len() && 0 <= j < after.len() && picks(sq, #[trigger] after[i])
                    && picks(sq, #[trigger] after[j]) implies i == j by {
                if i != pos && j != pos {
                    let a = if i < pos { i } else { i - 1 };
                    let b = if j < pos { j } else { j - 1 };
                    assert(after[i] == closed[a]);
                    assert(after[j] == closed[b]);
                    assert(picks(sq, fs[a]));
                    assert(picks(sq, fs[b]));
                } else if i != pos {
                    let a = if i < pos { i } else { i - 1 };
                    assert(after[i] == closed[a]);
                    assert(after[j] == nf);
                } else if j != pos {
                    let b = if j < pos { j } else { j - 1 };
                    assert(after[j] == closed[b]);
                    assert(after[i] == nf);
                }
            }
        } else {
            assert(after == closed);
            assert forall|i: int, j: int|
                0 <= i < after.len() && 0 <= j < after.len() && picks(sq, #[trigger] after[i])
                    && picks(sq, #[trigger] after[j]) implies i == j by {
                assert(picks(sq, fs[i]));
                assert(picks(sq, fs[j]));
            }
        }
    }
}

/// You can query the past: when `remember` closes an open fact at time `t`
/// (another object for the same subject and predicate), a point-in-time
/// query at any moment from the fact's recording up to, but not including,
/// `t` still returns it, and a query at `t` or later does not.
pub proof fn law_closed_fact_visible_before_close(f: FactView, t: Seq<char>, as_of: Seq<char>)
    requires
        is_open(f),
        !lex_lt(as_of, f.recorded_at),
    ensures
        picks(Sel::AsOf(as_of), closed_at(f, t)) <==> lex_lt(as_of, t),
{
}

/// Forgetting is auditable: a tombstoned fact leaves every query of active
/// facts, stays in the store with its reason, and no other fact changes.
pub proof fn law_tombstone_auditable(fs: Seq<FactView>, id: Seq<char>, reason: Seq<char>)
    requires
        store_wf(fs),
        has_id(fs, id),
    ensures
        ({
            let after = tombstone_result(fs, id, reason);
            &&& after.len() == fs.len()
            &&& exists|i: int|
                0 <= i < after.len() && #[trigger] after[i].id == id && after[i].tombstone
                    && after[i].tombstone_reason == Some(reason)
            &&& forall|i: int| 0 <= i < after.len() && after[i].id == id ==> !picks(Sel::Active, #[trigger] after[i])
            &&& forall|i: int| 0 <= i < after.len() && fs[i].id != id ==> #[trigger] after[i] == fs[i]
        }),
{
    lemma_has_id_first_index(fs, id);
    lemma_first_index(fs, Sel::IdIs(id));
    let k = first_index(fs, Sel::IdIs(id));
    let after = tombstone_result(fs, id, reason);
    assert(after[k].id == id);
    assert forall|i: int| 0 <= i < after.len() && after[i].id == id implies !picks(Sel::Active, #[trigger] after[i]) by {
        if i != k {
            assert(after[i] == fs[i]);
            assert(fs[k].id == id);
        }
    }
}

} // verus!
