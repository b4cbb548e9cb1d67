//! Vector clocks: per-device counters kept with each fact.
//!
//! A clock is stored as a JSON document. The library holds what its rules
//! read of that document: when it is an object, each key with either an
//! integer count or the text of any other JSON value; otherwise the
//! document's text, marked as valid JSON that is not an object or as text
//! that is not JSON at all. Turning text into a clock and back is done with
//! serde at the edge of the library.

use vstd::prelude::*;
use crate::text::owned;

verus! {

/// The value kept under one device in a clock object.
pub enum ClockValue {
    /// A JSON number that fits in an `i64`.
    Count(i64),
    /// Any other JSON value, as its compact JSON text.
    Raw(String),
}

pub struct ClockEntry {
    pub device: String,
    pub value: ClockValue,
}

pub enum VectorClock {
    /// A JSON object, entry by entry.
    Entries(Vec<ClockEntry>),
    /// Valid JSON that is not an object, as its compact JSON text.
    NotObject(String),
    /// Text that does not parse as JSON.
    Unreadable(String),
}

pub enum ClockValueView {
    Count(i64),
    Raw(Seq<char>),
}

pub enum ClockView {
    Entries(Seq<(Seq<char>, ClockValueView)>),
    NotObject(Seq<char>),
    Unreadable(Seq<char>),
}

impl View for ClockValue {
    type V = ClockValueView;

    open spec fn view(&self) -> ClockValueView {
        match self {
            ClockValue::Count(n) => ClockValueView::Count(*n),
            ClockValue::Raw(t) => ClockValueView::Raw(t@),
        }
    }
}

impl View for ClockEntry {
    type V = (Seq<char>, ClockValueView);

    open spec fn view(&self) -> (Seq<char>, ClockValueView) {
        (self.device@, self.value@)
    }
}

pub open spec fn entries_view(es: Seq<ClockEntry>) -> Seq<(Seq<char>, ClockValueView)> {
    es.map_values(|e: ClockEntry| e@)
}

impl View for VectorClock {
    type V = ClockView;

    open spec fn view(&self) -> ClockView {
        match self {
            VectorClock::Entries(es) => ClockView::Entries(entries_view(es@)),
            VectorClock::NotObject(t) => ClockView::NotObject(t@),
            VectorClock::Unreadable(t) => ClockView::Unreadable(t@),
        }
    }
}

/// The count a value stands for: its integer, or 0 for any other value.
pub open spec fn value_count(v: ClockValueView) -> i64 {
    match v {
        ClockValueView::Count(n) => n,
        ClockValueView::Raw(_) => 0,
    }
}

/// Index of the last entry for `device`, or -1.
pub open spec fn device_index(es: Seq<(Seq<char>, ClockValueView)>, device: Seq<char>) -> int
    decreases es.len(),
{
    if es.len() == 0 {
        -1
    } else if es.last().0 == device {
        es.len() - 1
    } else {
        device_index(es.drop_last(), device)
    }
}

pub proof fn lemma_device_index_range(es: Seq<(Seq<char>, ClockValueView)>, device: Seq<char>)
    ensures
        -1 <= device_index(es, device) < es.len(),
        device_index(es, device) >= 0 ==> es[device_index(es, device)].0 == device,
    decreases es.len(),
{
    if es.len() > 0 && es.last().0 != device {
        lemma_device_index_range(es.drop_last(), device);
    }
}

/// The count recorded for `device` (0 when absent or not an integer).
pub open spec fn count_of(es: Seq<(Seq<char>, ClockValueView)>, device: Seq<char>) -> i64 {
    let k = device_index(es, device);
    if k >= 0 {
        value_count(es[k].1)
    } else {
        0
    }
}

/// `es` with `device` set to `n`: its entry replaced, or a new one added.
pub open spec fn set_count(es: Seq<(Seq<char>, ClockValueView)>, device: Seq<char>, n: i64) -> Seq<
    (Seq<char>, ClockValueView),
> {
    let k = device_index(es, device);
    if k >= 0 {
        es.update(k, (device, ClockValueView::Count(n)))
    } else {
        es.push((device, ClockValueView::Count(n)))
    }
}

/// `n + 1`, or `n` when that would pass `i64::MAX`.
pub open spec fn inc_sat(n: i64) -> i64 {
    if n < i64::MAX {
        (n + 1) as i64
    } else {
        n
    }
}

/// A clock that has seen one event, from `device`.
pub open spec fn first_clock(device: Seq<char>) -> ClockView {
    ClockView::Entries(seq![(device, ClockValueView::Count(1))])
}

/// The clock after one more event from `device`. An object gets the
/// device's count raised by one; text that is not JSON counts as an empty
/// object; other JSON stays as it is.
pub open spec fn bumped(c: ClockView, device: Seq<char>) -> ClockView {
    match c {
        ClockView::Entries(es) => ClockView::Entries(
            set_count(es, device, inc_sat(count_of(es, device))),
        ),
        ClockView::NotObject(t) => ClockView::NotObject(t),
        ClockView::Unreadable(_) => first_clock(device),
    }
}

/// `a`'s entries with each device of `b` set to the larger of the two counts.
pub open spec fn merge_entries(
    a: Seq<(Seq<char>, ClockValueView)>,
    b: Seq<(Seq<char>, ClockValueView)>,
) -> Seq<(Seq<char>, ClockValueView)>
    decreases b.len(),
{
    if b.len() == 0 {
        a
    } else {
        let acc = merge_entries(a, b.drop_last());
        let (k, v) = b.last();
        let cur = count_of(acc, k);
        let inc = value_count(v);
        set_count(acc, k, if cur >= inc { cur } else { inc })
    }
}

/// Text that is not JSON is read as an empty object.
pub open spec fn as_read(c: ClockView) -> ClockView {
    match c {
        ClockView::Unreadable(_) => ClockView::Entries(seq![]),
        _ => c,
    }
}

/// The merge of two clocks: when both read as objects, the entrywise
/// maximum over `b`'s devices; otherwise `a` as read.
pub open spec fn merged(a: ClockView, b: ClockView) -> ClockView {
    match (as_read(a), as_read(b)) {
        (ClockView::Entries(ea), ClockView::Entries(eb)) => ClockView::Entries(merge_entries(ea, eb)),
        _ => as_read(a),
    }
}

impl ClockValue {
    pub fn duplicate(&self) -> (r: ClockValue)
        ensures
            r@ == self@,
    {
        match self {
            ClockValue::Count(n) => ClockValue::Count(*n),
            ClockValue::Raw(t) => ClockValue::Raw(t.clone()),
        }
    }
}

impl ClockEntry {
    pub fn duplicate(&self) -> (r: ClockEntry)
        ensures
            r@ == self@,
    {
        ClockEntry { device: self.device.clone(), value: self.value.duplicate() }
    }
}

fn duplicate_entries(es: &Vec<ClockEntry>) -> (r: Vec<ClockEntry>)
    ensures
        entries_view(r@) == entries_view(es@),
{
    let mut r: Vec<ClockEntry> = Vec::new();
    let mut i: usize = 0;
    while i < es.len()
        invariant
            i <= es.len(),
            r@.len() == i,
            entries_view(r@) == entries_view(es@).take(i as int),
        decreases es.len() - i,
    {
        let e = es[i].duplicate();
        let ghost old_r = r@;
        r.push(e);
        assert(r@ == old_r.push(e));
        assert forall|k: int| 0 <= k < i + 1 implies #[trigger] entries_view(r@)[k] == entries_view(
            es@,
        ).take(i + 1)[k] by {
            if k < i {
                assert(entries_view(old_r)[k] == entries_view(es@).take(i as int)[k]);
            }
        }
        i = i + 1;
        assert(entries_view(r@) =~= entries_view(es@).take(i as int));
    }
    assert(entries_view(es@).take(i as int) =~= entries_view(es@));
    r
}

fn find_device(es: &Vec<ClockEntry>, device: &String) -> (r: Option<usize>)
    ensures
        match r {
            Some(k) => device_index(entries_view(es@), device@) == k as int,
            None => device_index(entries_view(es@), device@) == -1,
        },
{
    let mut i: usize = es.len();
    assert(entries_view(es@).take(es.len() as int) =~= entries_view(es@));
    while i > 0
        invariant
            i <= es.len(),
            device_index(entries_view(es@), device@) == device_index(
                entries_view(es@).take(i as int),
                device@,
            ),
        decreases i,
    {
        let ghost pre = entries_view(es@).take(i as int);
        assert(pre.last() == es@[i - 1]@);
        assert(pre.drop_last() =~= entries_view(es@).take(i - 1));
        if es[i - 1].device == *device {
            return Some(i - 1);
        }
        i = i - 1;
    }
    None
}

fn set_count_exec(es: &mut Vec<ClockEntry>, device: &String, n: i64)
    ensures
        entries_view(final(es)@) == set_count(entries_view(old(es)@), device@, n),
{
    proof {
        lemma_device_index_range(entries_view(es@), device@);
    }
    match find_device(es, device) {
        Some(k) => {
            es.set(k, ClockEntry { device: device.clone(), value: ClockValue::Count(n) });
            assert(entries_view(es@) =~= set_count(entries_view(old(es)@), device@, n));
        },
        None => {
            es.push(ClockEntry { device: device.clone(), value: ClockValue::Count(n) });
            assert(entries_view(es@) =~= set_count(entries_view(old(es)@), device@, n));
        },
    }
}

fn count_exec(es: &Vec<ClockEntry>, device: &String) -> (r: i64)
    ensures
        r == count_of(entries_view(es@), device@),
{
    proof {
        lemma_device_index_range(entries_view(es@), device@);
    }
    match find_device(es, device) {
        Some(k) => match &es[k].value {
            ClockValue::Count(n) => *n,
            ClockValue::Raw(_) => 0,
        },
        None => 0,
    }
}

impl VectorClock {
    pub fn duplicate(&self) -> (r: VectorClock)
        ensures
            r@ == self@,
    {
        match self {
            VectorClock::Entries(es) => VectorClock::Entries(duplicate_entries(es)),
            VectorClock::NotObject(t) => VectorClock::NotObject(t.clone()),
            VectorClock::Unreadable(t) => VectorClock::Unreadable(t.clone()),
        }
    }

    /// The clock of a fact first recorded by `device`: `{device: 1}`.
    pub fn first(device: &String) -> (r: VectorClock)
        ensures
            r@ == first_clock(device@),
    {
        let mut es: Vec<ClockEntry> = Vec::new();
        es.push(ClockEntry { device: device.clone(), value: ClockValue::Count(1) });
        assert(entries_view(es@) =~= seq![(device@, ClockValueView::Count(1))]);
        VectorClock::Entries(es)
    }

    /// This clock after one more event from `device`.
    pub fn bump(&self, device: &String) -> (r: VectorClock)
        ensures
            r@ == bumped(self@, device@),
    {
        match self {
            VectorClock::Entries(es) => {
                let mut es2 = duplicate_entries(es);
                let c = count_exec(&es2, device);
                let n = if c < i64::MAX {
                    c + 1
                } else {
                    c
                };
                set_count_exec(&mut es2, device, n);
                VectorClock::Entries(es2)
            },
            VectorClock::NotObject(t) => VectorClock::NotObject(t.clone()),
            VectorClock::Unreadable(_) => VectorClock::first(device),
        }
    }
}

/// Entrywise maximum of two clocks: every device of `b` ends with the
/// larger of its two counts; a clock that is not a JSON object leaves `a`
/// as read, and text that is not JSON reads as an empty object.
pub fn merge_vector_clocks(a: &VectorClock, b: &VectorClock) -> (r: VectorClock)
    ensures
        r@ == merged(a@, b@),
{
    let ea: Vec<ClockEntry> = match a {
        VectorClock::Entries(es) => duplicate_entries(es),
        VectorClock::NotObject(t) => {
            return VectorClock::NotObject(t.clone());
        },
        VectorClock::Unreadable(_) => Vec::new(),
    };
    assert(as_read(a@) == ClockView::Entries(entries_view(ea@))) by {
        if a@ is Unreadable {
            assert(entries_view(ea@) =~= seq![]);
        }
    }
    let eb: Vec<ClockEntry> = match b {
        VectorClock::Entries(es) => duplicate_entries(es),
        VectorClock::NotObject(_) => {
            return VectorClock::Entries(ea);
        },
        VectorClock::Unreadable(_) => Vec::new(),
    };
    assert(as_read(b@) == ClockView::Entries(entries_view(eb@))) by {
        if b@ is Unreadable {
            assert(entries_view(eb@) =~= seq![]);
        }
    }
    let mut acc = ea;
    let ghost a0 = entries_view(acc@);
    let mut i: usize = 0;
    assert(entries_view(eb@).take(0) =~= seq![]);
    while i < eb.len()
        invariant
            i <= eb.len(),
            entries_view(acc@) == merge_entries(a0, entries_view(eb@).take(i as int)),
        decreases eb.len() - i,
    {
        let ghost pre = entries_view(eb@).take(i + 1);
        assert(pre.drop_last() =~= entries_view(eb@).take(i as int));
        assert(pre.last() == eb@[i as int]@);
        let cur = count_exec(&acc, &eb[i].device);
        let inc = match &eb[i].value {
            ClockValue::Count(n) => *n,
            ClockValue::Raw(_) => 0,
        };
        let m = if cur >= inc {
            cur
        } else {
            inc
        };
        set_count_exec(&mut acc, &eb[i].device, m);
        i = i + 1;
    }
    assert(entries_view(eb@).take(i as int) =~= entries_view(eb@));
    VectorClock::Entries(acc)
}

/// No device appears twice (as in a JSON object).
pub open spec fn devices_distinct(es: Seq<(Seq<char>, ClockValueView)>) -> bool {
    forall|i: int, j: int| 0 <= i < j < es.len() ==> #[trigger] es[i].0 != #[trigger] es[j].0
}

proof fn lemma_device_index_update(
    es: Seq<(Seq<char>, ClockValueView)>,
    j: int,
    e: (Seq<char>, ClockValueView),
    d: Seq<char>,
)
    requires
        0 <= j < es.len(),
        e.0 == es[j].0,
    ensures
        device_index(es.update(j, e), d) == device_index(es, d),
    decreases es.len(),
{
    let u = es.update(j, e);
    if j < es.len() - 1 {
        assert(u.last() == es.last());
        assert(u.drop_last() =~= es.drop_last().update(j, e));
        lemma_device_index_update(es.drop_last(), j, e, d);
    } else {
        assert(u.drop_last() =~= es.drop_last());
    }
}

proof fn lemma_count_of_set(es: Seq<(Seq<char>, ClockValueView)>, k: Seq<char>, n: i64, d: Seq<char>)
    ensures
        count_of(set_count(es, k, n), d) == (if d == k {
            n
        } else {
            count_of(es, d)
        }),
{
    lemma_device_index_range(es, k);
    lemma_device_index_range(es, d);
    let ki = device_index(es, k);
    let e = (k, ClockValueView::Count(n));
    if ki >= 0 {
        lemma_device_index_update(es, ki, e, d);
        let u = es.update(ki, e);
        if d != k {
            let di = device_index(es, d);
            if di >= 0 {
                assert(di != ki);
                assert(u[di] == es[di]);
            }
        }
    } else {
        let p = es.push(e);
        assert(p.drop_last() =~= es);
        let di = device_index(es, d);
        if d != k && di >= 0 {
            assert(p[di] == es[di]);
        }
    }
}

/// Merging takes, device by device, the larger count: for a device of the
/// incoming clock (whose devices are distinct, as in a JSON object), the
/// merged count is the larger of the two; for any other device it is the
/// count the first clock had.
pub proof fn law_merge_takes_the_larger_count(
    a: Seq<(Seq<char>, ClockValueView)>,
    b: Seq<(Seq<char>, ClockValueView)>,
    d: Seq<char>,
)
    requires
        devices_distinct(b),
    ensures
        merged(ClockView::Entries(a), ClockView::Entries(b)) == ClockView::Entries(merge_entries(a, b)),
        count_of(merge_entries(a, b), d) == (if device_index(b, d) >= 0 {
            if count_of(a, d) >= count_of(b, d) {
                count_of(a, d)
            } else {
                count_of(b, d)
            }
        } else {
            count_of(a, d)
        }),
    decreases b.len(),
{
    if b.len() > 0 {
        let bp = b.drop_last();
        let (k, v) = b.last();
        assert(devices_distinct(bp)) by {
            assert forall|i: int, j: int| 0 <= i < j < bp.len() implies #[trigger] bp[i].0 != #[trigger] bp[j].0 by {
                assert(bp[i] == b[i] && bp[j] == b[j]);
            }
        }
        law_merge_takes_the_larger_count(a, bp, d);
        law_merge_takes_the_larger_count(a, bp, k);
        let acc = merge_entries(a, bp);
        let cur = count_of(acc, k);
        let inc = value_count(v);
        lemma_count_of_set(acc, k, if cur >= inc { cur } else { inc }, d);
        lemma_device_index_range(bp, k);
        if device_index(bp, k) >= 0 {
            let i = device_index(bp, k);
            assert(b[i].0 == b[b.len() - 1].0);
            assert(false);
        }
        lemma_device_index_range(bp, d);
        if d != k {
            let di = device_index(bp, d);
            if di >= 0 {
                assert(b[di] == bp[di]);
            }
        }
    }
}

/// `device` has an entry.
pub open spec fn has_device(es: Seq<(Seq<char>, ClockValueView)>, device: Seq<char>) -> bool {
    device_index(es, device) >= 0
}

/// An integer count that is not negative.
pub open spec fn nonneg_count(v: ClockValueView) -> bool {
    match v {
        ClockValueView::Count(n) => n >= 0,
        ClockValueView::Raw(_) => false,
    }
}

/// Every entry is an integer count, none negative (a clock as devices
/// write it).
pub open spec fn counts_nonneg(es: Seq<(Seq<char>, ClockValueView)>) -> bool {
    forall|i: int| 0 <= i < es.len() ==> nonneg_count((#[trigger] es[i]).1)
}

/// The two clocks have the same devices with the same counts: as JSON
/// objects of counts, they are equal.
pub open spec fn same_clock(x: Seq<(Seq<char>, ClockValueView)>, y: Seq<(Seq<char>, ClockValueView)>) -> bool {
    forall|d: Seq<char>| #![trigger has_device(x, d)] #![trigger has_device(y, d)]
        has_device(x, d) == has_device(y, d) && count_of(x, d) == count_of(y, d)
}

pub open spec fn larger(a: i64, b: i64) -> i64 {
    if a >= b {
        a
    } else {
        b
    }
}

proof fn lemma_device_absent(es: Seq<(Seq<char>, ClockValueView)>, d: Seq<char>)
    ensures
        device_index(es, d) < 0 <==> forall|i: int| 0 <= i < es.len() ==> #[trigger] es[i].0 != d,
    decreases es.len(),
{
    lemma_device_index_range(es, d);
    if es.len() > 0 {
        lemma_device_absent(es.drop_last(), d);
        if es.last().0 != d {
            assert forall|i: int| 0 <= i < es.len() - 1 implies #[trigger] es[i].0 == es.drop_last()[i].0 by {}
            if device_index(es, d) < 0 {
                assert forall|i: int| 0 <= i < es.len() implies #[trigger] es[i].0 != d by {
                    if i < es.len() - 1 {
                        assert(es[i] == es.drop_last()[i]);
                    }
                }
            } else {
                let j = device_index(es, d);
                assert(es[j].0 == d);
            }
        } else {
            assert(es[es.len() - 1].0 == d);
        }
    }
}

proof fn lemma_count_nonneg(es: Seq<(Seq<char>, ClockValueView)>, d: Seq<char>)
    requires
        counts_nonneg(es),
    ensures
        count_of(es, d) >= 0,
{
    lemma_device_index_range(es, d);
    let k = device_index(es, d);
    if k >= 0 {
        assert(nonneg_count(es[k].1));
    }
}

proof fn lemma_set_count_shape(es: Seq<(Seq<char>, ClockValueView)>, k: Seq<char>, n: i64)
    ensures
        forall|d: Seq<char>| #[trigger] has_device(set_count(es, k, n), d) == (d == k || has_device(es, d)),
        devices_distinct(es) ==> devices_distinct(set_count(es, k, n)),
        counts_nonneg(es) && n >= 0 ==> counts_nonneg(set_count(es, k, n)),
{
    lemma_device_index_range(es, k);
    let ki = device_index(es, k);
    let e = (k, ClockValueView::Count(n));
    let u = set_count(es, k, n);
    if ki >= 0 {
        assert forall|d: Seq<char>| #[trigger] has_device(u, d) == (d == k || has_device(es, d)) by {
            lemma_device_index_update(es, ki, e, d);
        }
        assert forall|i: int| 0 <= i < u.len() implies #[trigger] u[i].0 == es[i].0 by {}
    } else {
        let p = es.push(e);
        assert(p.drop_last() =~= es);
        assert forall|d: Seq<char>| #[trigger] has_device(u, d) == (d == k || has_device(es, d)) by {
            assert(p.last() == e);
        }
        lemma_device_absent(es, k);
        if devices_distinct(es) {
            assert forall|i: int, j: int| 0 <= i < j < u.len() implies #[trigger] u[i].0 != #[trigger] u[j].0 by {
                if j == es.len() {
                    assert(u[i] == es[i]);
                } else {
                    assert(u[i] == es[i] && u[j] == es[j]);
                }
            }
        }
        if counts_nonneg(es) && n >= 0 {
            assert forall|i: int| 0 <= i < u.len() implies nonneg_count((#[trigger] u[i]).1) by {
                if i < es.len() {
                    assert(u[i] == es[i]);
                }
            }
        }
    }
}

/// Merging two clocks of non-negative counts, whose devices are distinct,
/// gives a clock of non-negative counts with distinct devices, holding the
/// devices of either clock, each with the larger of its two counts (an
/// absent device counting 0).
pub proof fn law_merge_is_entrywise_max(a: Seq<(Seq<char>, ClockValueView)>, b: Seq<(Seq<char>, ClockValueView)>)
    requires
        devices_distinct(a),
        devices_distinct(b),
        counts_nonneg(a),
        counts_nonneg(b),
    ensures
        devices_distinct(merge_entries(a, b)),
        counts_nonneg(merge_entries(a, b)),
        forall|d: Seq<char>|
            #[trigger] has_device(merge_entries(a, b), d) == (has_device(a, d) || has_device(b, d)),
        forall|d: Seq<char>|
            #[trigger] count_of(merge_entries(a, b), d) == larger(count_of(a, d), count_of(b, d)),
    decreases b.len(),
{
    if b.len() > 0 {
        let bp = b.drop_last();
        let (k, v) = b.last();
        assert(devices_distinct(bp)) by {
            assert forall|i: int, j: int| 0 <= i < j < bp.len() implies #[trigger] bp[i].0 != #[trigger] bp[j].0 by {
                assert(bp[i] == b[i] && bp[j] == b[j]);
            }
        }
        assert(counts_nonneg(bp)) by {
            assert forall|i: int| 0 <= i < bp.len() implies nonneg_count((#[trigger] bp[i]).1) by {
                assert(bp[i] == b[i]);
            }
        }
        law_merge_is_entrywise_max(a, bp);
        let acc = merge_entries(a, bp);
        let cur = count_of(acc, k);
        let inc = value_count(v);
        assert(b[b.len() - 1] == b.last());
        assert(inc >= 0);
        lemma_count_nonneg(acc, k);
        lemma_set_count_shape(acc, k, if cur >= inc { cur } else { inc });
        assert forall|d: Seq<char>| #[trigger] has_device(merge_entries(a, b), d) == (has_device(a, d) || has_device(b, d)) by {
            lemma_device_index_range(bp, d);
            if d != k {
                assert(device_index(b, d) == device_index(bp, d));
            }
        }
    }
    assert forall|d: Seq<char>| #[trigger] count_of(merge_entries(a, b), d) == larger(count_of(a, d), count_of(b, d)) by {
        law_merge_takes_the_larger_count(a, b, d);
        lemma_count_nonneg(a, d);
        lemma_count_nonneg(b, d);
    }
}

/// Merging clocks of non-negative counts with distinct devices is a join:
/// the result does not depend on the order of the two clocks, merging a
/// clock with itself or with the empty clock gives it back, and merging
/// three clocks does not depend on the grouping (each up to the order of
/// entries, that is, as JSON objects).
pub proof fn law_merge_laws(
    a: Seq<(Seq<char>, ClockValueView)>,
    b: Seq<(Seq<char>, ClockValueView)>,
    c: Seq<(Seq<char>, ClockValueView)>,
)
    requires
        devices_distinct(a),
        devices_distinct(b),
        devices_distinct(c),
        counts_nonneg(a),
        counts_nonneg(b),
        counts_nonneg(c),
    ensures
        same_clock(merge_entries(a, b), merge_entries(b, a)),
        same_clock(merge_entries(a, a), a),
        same_clock(merge_entries(a, seq![]), a),
        same_clock(merge_entries(merge_entries(a, b), c), merge_entries(a, merge_entries(b, c))),
{
    law_merge_is_entrywise_max(a, b);
    law_merge_is_entrywise_max(b, a);
    law_merge_is_entrywise_max(a, a);
    law_merge_is_entrywise_max(b, c);
    law_merge_is_entrywise_max(merge_entries(a, b), c);
    law_merge_is_entrywise_max(a, merge_entries(b, c));
    assert forall|d: Seq<char>| has_device(a, d) implies count_of(a, d) >= 0 by {
        lemma_count_nonneg(a, d);
    }
    assert forall|d: Seq<char>|
        #![trigger has_device(merge_entries(a, b), d)]
        #![trigger has_device(merge_entries(b, a), d)]
        has_device(merge_entries(a, b), d) == has_device(merge_entries(b, a), d) && count_of(merge_entries(a, b), d)
            == count_of(merge_entries(b, a), d) by {
        assert(has_device(merge_entries(a, b), d) == (has_device(a, d) || has_device(b, d)));
        assert(has_device(merge_entries(b, a), d) == (has_device(b, d) || has_device(a, d)));
        assert(count_of(merge_entries(a, b), d) == larger(count_of(a, d), count_of(b, d)));
        assert(count_of(merge_entries(b, a), d) == larger(count_of(b, d), count_of(a, d)));
    }
    assert forall|d: Seq<char>|
        #![trigger has_device(merge_entries(a, a), d)]
        #![trigger has_device(a, d)]
        has_device(merge_entries(a, a), d) == has_device(a, d) && count_of(merge_entries(a, a), d) == count_of(a, d) by {
        assert(has_device(merge_entries(a, a), d) == (has_device(a, d) || has_device(a, d)));
        assert(count_of(merge_entries(a, a), d) == larger(count_of(a, d), count_of(a, d)));
    }
    assert(merge_entries(a, seq![]) == a);
    let ab = merge_entries(a, b);
    let bc = merge_entries(b, c);
    assert forall|d: Seq<char>|
        #![trigger has_device(merge_entries(ab, c), d)]
        #![trigger has_device(merge_entries(a, bc), d)]
        has_device(merge_entries(ab, c), d) == has_device(merge_entries(a, bc), d) && count_of(merge_entries(ab, c), d)
            == count_of(merge_entries(a, bc), d) by {
        assert(has_device(merge_entries(ab, c), d) == (has_device(ab, d) || has_device(c, d)));
        assert(has_device(ab, d) == (has_device(a, d) || has_device(b, d)));
        assert(has_device(merge_entries(a, bc), d) == (has_device(a, d) || has_device(bc, d)));
        assert(has_device(bc, d) == (has_device(b, d) || has_device(c, d)));
        assert(count_of(merge_entries(ab, c), d) == larger(count_of(ab, d), count_of(c, d)));
        assert(count_of(ab, d) == larger(count_of(a, d), count_of(b, d)));
        assert(count_of(merge_entries(a, bc), d) == larger(count_of(a, d), count_of(bc, d)));
        assert(count_of(bc, d) == larger(count_of(b, d), count_of(c, d)));
    }
}

} // verus!
