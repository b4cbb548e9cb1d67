//! Depth-limited traversal of the fact graph.
//!
//! Starting from entry subjects, each explored subject yields its facts, and
//! every fact's object becomes a subject to explore one level deeper. Each
//! subject is explored at most once. With a point in time, only the facts
//! the store knew and held valid at that moment are followed; without one,
//! only open facts.

use vstd::prelude::*;
use vstd::multiset::Multiset;
use crate::fact::{Fact, FactView, facts_view};
use crate::store::{Store, Sel, Selector, picks, is_open};
use crate::text::owned;

verus! {

pub struct TraversalResult {
    /// The facts found, newest first.
    pub facts: Vec<Fact>,
    /// (subject, predicate) of each fact as it was reached.
    pub hops: Vec<(String, String)>,
}

pub open spec fn strings_view(v: Seq<String>) -> Seq<Seq<char>> {
    v.map_values(|s: String| s@)
}

pub open spec fn hops_view(v: Seq<(String, String)>) -> Seq<(Seq<char>, Seq<char>)> {
    v.map_values(|h: (String, String)| (h.0@, h.1@))
}

/// The facts a traversal follows: valid at `as_of` when given, else open.
pub open spec fn in_window(f: FactView, as_of: Option<Seq<char>>) -> bool {
    match as_of {
        Some(t) => picks(Sel::AsOf(t), f),
        None => is_open(f),
    }
}

/// Objects of the followed facts whose subject is in `from`.
pub open spec fn step_objects(fs: Seq<FactView>, as_of: Option<Seq<char>>, from: Set<Seq<char>>) -> Set<
    Seq<char>,
> {
    Set::new(
        |x: Seq<char>|
            exists|k: int|
                0 <= k < fs.len() && in_window(#[trigger] fs[k], as_of) && from.contains(fs[k].subject)
                    && fs[k].object == x,
    )
}

/// Subjects within `n` steps of the entries.
pub open spec fn reach(fs: Seq<FactView>, entries: Set<Seq<char>>, as_of: Option<Seq<char>>, n: nat) -> Set<
    Seq<char>,
>
    decreases n,
{
    if n == 0 {
        entries
    } else {
        let prev = reach(fs, entries, as_of, (n - 1) as nat);
        prev.union(step_objects(fs, as_of, prev))
    }
}

/// The subjects a traversal of depth `max_depth` explores: those fewer than
/// `max_depth` steps from an entry.
pub open spec fn explored(
    fs: Seq<FactView>,
    entries: Set<Seq<char>>,
    as_of: Option<Seq<char>>,
    max_depth: nat,
) -> Set<Seq<char>> {
    if max_depth == 0 {
        Set::empty()
    } else {
        reach(fs, entries, as_of, (max_depth - 1) as nat)
    }
}

pub open spec fn found_pred(as_of: Option<Seq<char>>, subjects: Set<Seq<char>>) -> spec_fn(
    FactView,
) -> bool {
    |f: FactView| in_window(f, as_of) && subjects.contains(f.subject)
}

proof fn lemma_reach_grows(fs: Seq<FactView>, entries: Set<Seq<char>>, as_of: Option<Seq<char>>, n: nat)
    ensures
        reach(fs, entries, as_of, n).subset_of(reach(fs, entries, as_of, n + 1)),
{
}

proof fn lemma_reach_fixpoint(
    fs: Seq<FactView>,
    entries: Set<Seq<char>>,
    as_of: Option<Seq<char>>,
    n: nat,
    m: nat,
)
    requires
        reach(fs, entries, as_of, n + 1) == reach(fs, entries, as_of, n),
        n <= m,
    ensures
        reach(fs, entries, as_of, m) == reach(fs, entries, as_of, n),
    decreases m - n,
{
    if m > n {
        lemma_reach_fixpoint(fs, entries, as_of, n, (m - 1) as nat);
        assert(reach(fs, entries, as_of, m) == reach(fs, entries, as_of, ((m - 1) as nat) + 1));
    }
}

fn in_window_exec(f: &Fact, as_of: &Option<String>) -> (r: bool)
    ensures
        r == in_window(f@, opt_str_view(as_of)),
{
    match as_of {
        Some(t) => Selector::AsOf(t.clone()).picks_fact(f),
        None => !f.tombstone && f.valid_until.is_none(),
    }
}

pub open spec fn opt_str_view(o: &Option<String>) -> Option<Seq<char>> {
    match o {
        Some(s) => Some(s@),
        None => None,
    }
}

pub fn vec_has(v: &Vec<String>, x: &String) -> (r: bool)
    ensures
        r == strings_view(v@).contains(x@),
{
    let mut i: usize = 0;
    while i < v.len()
        invariant
            i <= v.len(),
            forall|k: int| 0 <= k < i ==> v@[k]@ != x@,
        decreases v.len() - i,
    {
        if v[i] == *x {
            assert(strings_view(v@)[i as int] == x@);
            return true;
        }
        i = i + 1;
    }
    assert forall|k: int| 0 <= k < strings_view(v@).len() implies strings_view(v@)[k] != x@ by {
        assert(strings_view(v@)[k] == v@[k]@);
    }
    false
}

fn copy_strings(v: &[String]) -> (r: Vec<String>)
    ensures
        strings_view(r@) == strings_view(v@),
{
    let mut r: Vec<String> = Vec::new();
    let mut i: usize = 0;
    while i < v.len()
        invariant
            i <= v.len(),
            r@.len() == i,
            forall|k: int| 0 <= k < i ==> r@[k]@ == v@[k]@,
        decreases v.len() - i,
    {
        r.push(v[i].clone());
        i = i + 1;
    }
    assert(strings_view(r@) =~= strings_view(v@));
    r
}

/// Facts followed from subject `x`.
pub open spec fn from_subject(aw: Option<Seq<char>>, x: Seq<char>) -> spec_fn(FactView) -> bool {
    |f: FactView| in_window(f, aw) && f.subject == x
}

pub open spec fn hop_of(f: FactView) -> (Seq<char>, Seq<char>) {
    (f.subject, f.predicate)
}

pub open spec fn object_of(f: FactView) -> Seq<char> {
    f.object
}

/// A hop that names a followed fact whose subject is in `vis`.
pub open spec fn backed(fs: Seq<FactView>, aw: Option<Seq<char>>, vis: Set<Seq<char>>, h: (Seq<char>, Seq<char>)) -> bool {
    exists|k: int| 0 <= k < fs.len() && #[trigger] found_pred(aw, vis)(fs[k]) && hop_of(fs[k]) == h
}

/// Every followed fact whose subject is in `vis` has its hop.
pub open spec fn covered(fs: Seq<FactView>, aw: Option<Seq<char>>, vis: Set<Seq<char>>, hops: Seq<(Seq<char>, Seq<char>)>) -> bool {
    forall|k: int| 0 <= k < fs.len() && #[trigger] found_pred(aw, vis)(fs[k]) ==> hops.contains(hop_of(fs[k]))
}

pub open spec fn names_hop(f: FactView, h: (Seq<char>, Seq<char>)) -> bool {
    hop_of(f) == h
}

/// Some fact has hop `h`.
pub open spec fn hop_named(facts: Seq<FactView>, h: (Seq<char>, Seq<char>)) -> bool {
    exists|k: int| 0 <= k < facts.len() && names_hop(#[trigger] facts[k], h)
}

/// Every hop is the (subject, predicate) of a fact, and every fact has its hop.
pub open spec fn hops_name_facts(hops: Seq<(Seq<char>, Seq<char>)>, facts: Seq<FactView>) -> bool {
    &&& forall|i: int| 0 <= i < hops.len() ==> hop_named(facts, #[trigger] hops[i])
    &&& forall|k: int| 0 <= k < facts.len() ==> hops.contains(hop_of(#[trigger] facts[k]))
}

proof fn lemma_hops_name_found(
    fs: Seq<FactView>,
    aw: Option<Seq<char>>,
    vis: Set<Seq<char>>,
    hops: Seq<(Seq<char>, Seq<char>)>,
)
    requires
        forall|i: int| 0 <= i < hops.len() ==> backed(fs, aw, vis, #[trigger] hops[i]),
        covered(fs, aw, vis, hops),
    ensures
        hops_name_facts(hops, fs.filter(found_pred(aw, vis))),
{
    let sel = found_pred(aw, vis);
    let res = fs.filter(sel);
    assert forall|i: int| 0 <= i < hops.len() implies hop_named(res, #[trigger] hops[i]) by {
        assert(backed(fs, aw, vis, hops[i]));
        let j = choose|j: int| 0 <= j < fs.len() && #[trigger] found_pred(aw, vis)(fs[j]) && hop_of(fs[j]) == hops[i];
        fs.lemma_filter_contains(sel, j);
        let k = choose|k: int| 0 <= k < res.len() && res[k] == fs[j];
        assert(names_hop(res[k], hops[i]));
    }
    assert forall|k: int| 0 <= k < res.len() implies hops.contains(hop_of(#[trigger] res[k])) by {
        fs.lemma_filter_pred(sel, k);
        assert(res.contains(res[k]));
        fs.lemma_filter_contains_rev(sel, res[k]);
        let j = choose|j: int| 0 <= j < fs.len() && fs[j] == res[k];
        assert(found_pred(aw, vis)(fs[j]));
    }
}

/// Record the facts followed from `x`: their hops and their objects.
fn expand_subject(
    fsv: &Vec<Fact>,
    as_of: &Option<String>,
    x: &String,
    hops: &mut Vec<(String, String)>,
    next: &mut Vec<String>,
)
    ensures
        hops_view(final(hops)@) == hops_view(old(hops)@) + facts_view(fsv@).filter(
            from_subject(opt_str_view(as_of), x@),
        ).map_values(|f: FactView| hop_of(f)),
        strings_view(final(next)@) == strings_view(old(next)@) + facts_view(fsv@).filter(
            from_subject(opt_str_view(as_of), x@),
        ).map_values(|f: FactView| object_of(f)),
{
    let ghost fs = facts_view(fsv@);
    let ghost p = from_subject(opt_str_view(as_of), x@);
    let ghost h0 = hops_view(hops@);
    let ghost n0 = strings_view(next@);
    let mut j: usize = 0;
    reveal(Seq::filter);
    assert(fs.take(0) =~= Seq::<FactView>::empty());
    assert(h0 + Seq::<FactView>::empty().map_values(|f: FactView| hop_of(f)) =~= h0);
    assert(n0 + Seq::<FactView>::empty().map_values(|f: FactView| object_of(f)) =~= n0);
    while j < fsv.len()
        invariant
            fs == facts_view(fsv@),
            fs.len() == fsv@.len(),
            p == from_subject(opt_str_view(as_of), x@),
            j <= fs.len(),
            hops_view(hops@) == h0 + fs.take(j as int).filter(p).map_values(|f: FactView| hop_of(f)),
            strings_view(next@) == n0 + fs.take(j as int).filter(p).map_values(|f: FactView| object_of(f)),
        decreases fsv.len() - j,
    {
        let f = &fsv[j];
        assert(fs[j as int] == f@);
        assert(fs.take(j + 1) =~= fs.take(j as int).push(fs[j as int]));
        proof {
            fs.take(j as int).lemma_filter_push(fs[j as int], p);
        }
        let ghost flt = fs.take(j as int).filter(p);
        if in_window_exec(f, as_of) && f.subject == *x {
            let ghost hb = hops_view(hops@);
            let ghost nb = strings_view(next@);
            hops.push((f.subject.clone(), f.predicate.clone()));
            next.push(f.object.clone());
            assert(hops_view(hops@) =~= hb.push(hop_of(f@)));
            assert(strings_view(next@) =~= nb.push(object_of(f@)));
            assert(flt.push(f@).map_values(|f: FactView| hop_of(f)) =~= flt.map_values(
                |f: FactView| hop_of(f),
            ).push(hop_of(f@)));
            assert(flt.push(f@).map_values(|f: FactView| object_of(f)) =~= flt.map_values(
                |f: FactView| object_of(f),
            ).push(object_of(f@)));
            assert(hops_view(hops@) =~= h0 + flt.push(f@).map_values(|f: FactView| hop_of(f)));
            assert(strings_view(next@) =~= n0 + flt.push(f@).map_values(|f: FactView| object_of(f)));
        }
        j = j + 1;
    }
    assert(fs.take(j as int) =~= fs);
}

proof fn lemma_expand_hops(
    fs: Seq<FactView>,
    aw: Option<Seq<char>>,
    vis: Set<Seq<char>>,
    x: Seq<char>,
    hops: Seq<(Seq<char>, Seq<char>)>,
)
    requires
        forall|i: int| 0 <= i < hops.len() ==> backed(fs, aw, vis, #[trigger] hops[i]),
        covered(fs, aw, vis, hops),
    ensures
        ({
            let hops2 = hops + fs.filter(from_subject(aw, x)).map_values(|f: FactView| hop_of(f));
            let vis2 = vis.insert(x);
            &&& forall|i: int| 0 <= i < hops2.len() ==> backed(fs, aw, vis2, #[trigger] hops2[i])
            &&& covered(fs, aw, vis2, hops2)
        }),
{
    let p = from_subject(aw, x);
    let flt = fs.filter(p);
    let added = flt.map_values(|f: FactView| hop_of(f));
    let hops2 = hops + added;
    let vis2 = vis.insert(x);
    assert forall|i: int| 0 <= i < hops2.len() implies backed(fs, aw, vis2, #[trigger] hops2[i]) by {
        if i < hops.len() {
            assert(hops2[i] == hops[i]);
            assert(backed(fs, aw, vis, hops[i]));
            let k = choose|k: int| 0 <= k < fs.len() && #[trigger] found_pred(aw, vis)(fs[k]) && hop_of(fs[k]) == hops[i];
            assert(found_pred(aw, vis2)(fs[k]));
        } else {
            let m = i - hops.len();
            assert(hops2[i] == added[m]);
            assert(added[m] == hop_of(flt[m]));
            fs.lemma_filter_pred(p, m);
            assert(flt.contains(flt[m]));
            fs.lemma_filter_contains_rev(p, flt[m]);
            let k = choose|k: int| 0 <= k < fs.len() && fs[k] == flt[m];
            assert(found_pred(aw, vis2)(fs[k]));
        }
    }
    assert forall|k: int| 0 <= k < fs.len() && #[trigger] found_pred(aw, vis2)(fs[k]) implies hops2.contains(hop_of(fs[k])) by {
        if fs[k].subject == x {
            assert(p(fs[k]));
            fs.lemma_filter_contains(p, k);
            let m = choose|m: int| 0 <= m < flt.len() && flt[m] == fs[k];
            assert(hops2[hops.len() + m] == hop_of(fs[k]));
        } else {
            assert(found_pred(aw, vis)(fs[k]));
            let i = choose|i: int| 0 <= i < hops.len() && hops[i] == hop_of(fs[k]);
            assert(hops2[i] == hop_of(fs[k]));
        }
    }
}

proof fn lemma_expand_next(
    fs: Seq<FactView>,
    aw: Option<Seq<char>>,
    from: Set<Seq<char>>,
    x: Seq<char>,
    next: Seq<Seq<char>>,
)
    requires
        next.to_set() == step_objects(fs, aw, from),
    ensures
        (next + fs.filter(from_subject(aw, x)).map_values(|f: FactView| object_of(f))).to_set()
            == step_objects(fs, aw, from.insert(x)),
{
    let p = from_subject(aw, x);
    let flt = fs.filter(p);
    let added = flt.map_values(|f: FactView| object_of(f));
    let n2 = next + added;
    assert forall|o: Seq<char>| n2.to_set().contains(o) <==> step_objects(fs, aw, from.insert(x)).contains(o) by {
        if n2.to_set().contains(o) {
            let i = choose|i: int| 0 <= i < n2.len() && n2[i] == o;
            if i < next.len() {
                assert(next.to_set().contains(o));
                let k = choose|k: int| 0 <= k < fs.len() && in_window(#[trigger] fs[k], aw) && from.contains(fs[k].subject) && fs[k].object == o;
                assert(from.insert(x).contains(fs[k].subject));
            } else {
                let m = i - next.len();
                assert(added[m] == flt[m].object);
                fs.lemma_filter_pred(p, m);
                assert(flt.contains(flt[m]));
                fs.lemma_filter_contains_rev(p, flt[m]);
                let k = choose|k: int| 0 <= k < fs.len() && fs[k] == flt[m];
                assert(in_window(fs[k], aw) && from.insert(x).contains(fs[k].subject) && fs[k].object == o);
            }
        }
        if step_objects(fs, aw, from.insert(x)).contains(o) {
            let k = choose|k: int| 0 <= k < fs.len() && in_window(#[trigger] fs[k], aw) && from.insert(x).contains(fs[k].subject) && fs[k].object == o;
            if from.contains(fs[k].subject) {
                assert(step_objects(fs, aw, from).contains(o));
                assert(next.to_set().contains(o));
                let i = choose|i: int| 0 <= i < next.len() && next[i] == o;
                assert(n2[i] == o);
            } else {
                assert(fs[k].subject == x);
                fs.lemma_filter_contains(p, k);
                let m = choose|m: int| 0 <= m < flt.len() && flt[m] == fs[k];
                assert(n2[next.len() + m] == o);
            }
        }
    }
    assert(n2.to_set() =~= step_objects(fs, aw, from.insert(x)));
}

/// The hops of the facts of `s` that `p` picks, counted with multiplicity.
pub open spec fn picked_hops(s: Seq<FactView>, p: spec_fn(FactView) -> bool) -> Multiset<(Seq<char>, Seq<char>)> {
    s.filter(p).map_values(|f: FactView| hop_of(f)).to_multiset()
}

proof fn lemma_picked_hops_push(s: Seq<FactView>, f: FactView, p: spec_fn(FactView) -> bool)
    ensures
        picked_hops(s.push(f), p) == (if p(f) {
            picked_hops(s, p).insert(hop_of(f))
        } else {
            picked_hops(s, p)
        }),
{
    broadcast use vstd::seq_lib::group_to_multiset_ensures;

    reveal(Seq::filter);
    s.lemma_filter_push(f, p);
    let t = s.filter(p);
    if p(f) {
        assert(t.push(f).map_values(|g: FactView| hop_of(g)) =~= t.map_values(|g: FactView| hop_of(g)).push(
            hop_of(f),
        ));
    }
}

/// Exploring one more subject `x` adds exactly the hops of the facts
/// followed from `x`.
proof fn lemma_picked_hops_insert(fs: Seq<FactView>, aw: Option<Seq<char>>, vis: Set<Seq<char>>, x: Seq<char>)
    requires
        !vis.contains(x),
    ensures
        picked_hops(fs, found_pred(aw, vis.insert(x))) == picked_hops(fs, found_pred(aw, vis)).add(
            picked_hops(fs, from_subject(aw, x)),
        ),
    decreases fs.len(),
{
    broadcast use vstd::multiset::group_multiset_axioms;

    if fs.len() == 0 {
        broadcast use vstd::seq_lib::group_to_multiset_ensures, vstd::multiset::group_multiset_properties;

        reveal(Seq::filter);
        let e = Seq::<(Seq<char>, Seq<char>)>::empty();
        assert(fs.filter(found_pred(aw, vis.insert(x))).map_values(|f: FactView| hop_of(f)) =~= e);
        assert(fs.filter(found_pred(aw, vis)).map_values(|f: FactView| hop_of(f)) =~= e);
        assert(fs.filter(from_subject(aw, x)).map_values(|f: FactView| hop_of(f)) =~= e);
        assert(e.to_multiset().len() == 0);
        assert(e.to_multiset() =~= Multiset::empty());
    } else {
        let s = fs.drop_last();
        let f = fs.last();
        assert(fs =~= s.push(f));
        lemma_picked_hops_insert(s, aw, vis, x);
        lemma_picked_hops_push(s, f, found_pred(aw, vis.insert(x)));
        lemma_picked_hops_push(s, f, found_pred(aw, vis));
        lemma_picked_hops_push(s, f, from_subject(aw, x));
        let a = picked_hops(s, found_pred(aw, vis));
        let b = picked_hops(s, from_subject(aw, x));
        if found_pred(aw, vis)(f) {
            assert(a.insert(hop_of(f)).add(b) =~= a.add(b).insert(hop_of(f)));
        } else if from_subject(aw, x)(f) {
            assert(a.add(b.insert(hop_of(f))) =~= a.add(b).insert(hop_of(f)));
        }
    }
}

/// The (subject, predicate) of the facts followed from `x`, in store order.
pub open spec fn hops_from(fs: Seq<FactView>, aw: Option<Seq<char>>, x: Seq<char>) -> Seq<(Seq<char>, Seq<char>)> {
    fs.filter(from_subject(aw, x)).map_values(|f: FactView| hop_of(f))
}

/// The objects of the facts followed from `x`, in store order.
pub open spec fn objects_from(fs: Seq<FactView>, aw: Option<Seq<char>>, x: Seq<char>) -> Seq<Seq<char>> {
    fs.filter(from_subject(aw, x)).map_values(|f: FactView| object_of(f))
}

/// One level of the walk: the frontier's subjects in order, each explored
/// unless it already was. The result is the subjects explored so far, in
/// order, and the next frontier: the objects followed from each subject
/// newly explored, in that order.
pub open spec fn walk_level(
    fs: Seq<FactView>,
    aw: Option<Seq<char>>,
    frontier: Seq<Seq<char>>,
    visited: Seq<Seq<char>>,
) -> (Seq<Seq<char>>, Seq<Seq<char>>)
    decreases frontier.len(),
{
    if frontier.len() == 0 {
        (visited, seq![])
    } else {
        let prev = walk_level(fs, aw, frontier.drop_last(), visited);
        let x = frontier.last();
        if prev.0.contains(x) {
            prev
        } else {
            (prev.0.push(x), prev.1 + objects_from(fs, aw, x))
        }
    }
}

/// The subjects a breadth-first walk of at most `levels` levels explores,
/// in the order it explores them; it stops early when a frontier is empty.
pub open spec fn walk_order(
    fs: Seq<FactView>,
    aw: Option<Seq<char>>,
    frontier: Seq<Seq<char>>,
    visited: Seq<Seq<char>>,
    levels: nat,
) -> Seq<Seq<char>>
    decreases levels,
{
    if levels == 0 || frontier.len() == 0 {
        visited
    } else {
        let l = walk_level(fs, aw, frontier, visited);
        walk_order(fs, aw, l.1, l.0, (levels - 1) as nat)
    }
}

/// The hops of the subjects in turn: for each, those of its followed facts
/// in store order.
pub open spec fn hops_along(fs: Seq<FactView>, aw: Option<Seq<char>>, xs: Seq<Seq<char>>) -> Seq<
    (Seq<char>, Seq<char>),
>
    decreases xs.len(),
{
    if xs.len() == 0 {
        seq![]
    } else {
        hops_along(fs, aw, xs.drop_last()) + hops_from(fs, aw, xs.last())
    }
}

/// Breadth-first walk from `entry_subjects`, at most `max_depth` levels.
/// The facts found are exactly the followed facts (valid at `as_of` when it
/// is given, open otherwise) whose subject is fewer than `max_depth` steps
/// from an entry, each once, in store order (newest first). The hops are
/// the (subject, predicate) of the facts found, one per fact: subject by
/// subject in the breadth-first order `walk_order` gives, and newest first
/// within each subject.
pub fn traverse(store: &Store, entry_subjects: &[String], max_depth: usize, as_of: Option<&str>) -> (r:
    Result<TraversalResult, String>)
    requires
        store.wf(),
    ensures
        ({
            let ghost_as_of = match as_of {
                Some(t) => Some(t@),
                None => None,
            };
            let subjects = explored(
                store@.facts,
                strings_view(entry_subjects@).to_set(),
                ghost_as_of,
                max_depth as nat,
            );
            &&& r matches Ok(t)
            &&& facts_view(t.facts@) == store@.facts.filter(found_pred(ghost_as_of, subjects))
            &&& hops_name_facts(hops_view(t.hops@), facts_view(t.facts@))
            &&& hops_view(t.hops@).to_multiset() == facts_view(t.facts@).map_values(
                |f: FactView| hop_of(f),
            ).to_multiset()
            &&& hops_view(t.hops@) == hops_along(
                store@.facts,
                ghost_as_of,
                walk_order(store@.facts, ghost_as_of, strings_view(entry_subjects@), seq![], max_depth as nat),
            )
        }),
{
    let as_of_s: Option<String> = match as_of {
        Some(t) => Some(owned(t)),
        None => None,
    };
    let ghost aw = opt_str_view(&as_of_s);
    let fsv = match store.all_facts() {
        Ok(v) => v,
        Err(e) => {
            return Err(e);
        },
    };
    let ghost fs = facts_view(fsv@);
    let ghost entries = strings_view(entry_subjects@).to_set();
    let mut visited: Vec<String> = Vec::new();
    let mut hops: Vec<(String, String)> = Vec::new();
    let mut frontier: Vec<String> = copy_strings(entry_subjects);
    let mut depth: usize = 0;
    assert(strings_view(visited@).to_set() =~= Set::<Seq<char>>::empty());
    assert(strings_view(visited@) =~= Seq::<Seq<char>>::empty());
    proof {
        let e = found_pred(aw, Set::<Seq<char>>::empty());
        if fs.filter(e).len() > 0 {
            fs.lemma_filter_pred(e, 0);
        }
        assert(fs.filter(e).map_values(|f: FactView| hop_of(f)) =~= Seq::<(Seq<char>, Seq<char>)>::empty());
        assert(hops_view(hops@) =~= Seq::<(Seq<char>, Seq<char>)>::empty());
    }
    while depth < max_depth && frontier.len() > 0
        invariant
            fs == facts_view(fsv@),
            fs.len() == fsv@.len(),
            aw == opt_str_view(&as_of_s),
            depth <= max_depth,
            strings_view(visited@).to_set() == (if depth == 0 {
                Set::<Seq<char>>::empty()
            } else {
                reach(fs, entries, aw, (depth - 1) as nat)
            }),
            strings_view(frontier@).to_set().subset_of(reach(fs, entries, aw, depth as nat)),
            reach(fs, entries, aw, depth as nat).difference(strings_view(visited@).to_set()).subset_of(
                strings_view(frontier@).to_set(),
            ),
            forall|i: int|
                0 <= i < hops@.len() ==> backed(
                    fs,
                    aw,
                    strings_view(visited@).to_set(),
                    #[trigger] hops_view(hops@)[i],
                ),
            covered(fs, aw, strings_view(visited@).to_set(), hops_view(hops@)),
            hops_view(hops@).to_multiset() == picked_hops(fs, found_pred(aw, strings_view(visited@).to_set())),
            walk_order(fs, aw, strings_view(entry_subjects@), seq![], max_depth as nat) == walk_order(
                fs,
                aw,
                strings_view(frontier@),
                strings_view(visited@),
                (max_depth - depth) as nat,
            ),
            hops_view(hops@) == hops_along(fs, aw, strings_view(visited@)),
        decreases max_depth - depth,
    {
        let ghost v0 = strings_view(visited@).to_set();
        let ghost vs0 = strings_view(visited@);
        let mut next: Vec<String> = Vec::new();
        let mut i: usize = 0;
        assert(strings_view(next@).to_set() =~= step_objects(fs, aw, Set::<Seq<char>>::empty()));
        assert(strings_view(frontier@).take(0).to_set() =~= Set::<Seq<char>>::empty());
        assert(Set::<Seq<char>>::empty().difference(v0) =~= Set::<Seq<char>>::empty());
        assert(v0.union(Set::<Seq<char>>::empty()) =~= v0);
        assert(strings_view(next@) =~= Seq::<Seq<char>>::empty());
        while i < frontier.len()
            invariant
                fs == facts_view(fsv@),
                fs.len() == fsv@.len(),
                aw == opt_str_view(&as_of_s),
                i <= frontier@.len(),
                strings_view(visited@).to_set() == v0.union(
                    strings_view(frontier@).take(i as int).to_set(),
                ),
                strings_view(next@).to_set() == step_objects(
                    fs,
                    aw,
                    strings_view(frontier@).take(i as int).to_set().difference(v0),
                ),
                forall|h: int|
                    0 <= h < hops@.len() ==> backed(
                        fs,
                        aw,
                        strings_view(visited@).to_set(),
                        #[trigger] hops_view(hops@)[h],
                    ),
                covered(fs, aw, strings_view(visited@).to_set(), hops_view(hops@)),
                hops_view(hops@).to_multiset() == picked_hops(fs, found_pred(aw, strings_view(visited@).to_set())),
                (strings_view(visited@), strings_view(next@)) == walk_level(
                    fs,
                    aw,
                    strings_view(frontier@).take(i as int),
                    vs0,
                ),
                hops_view(hops@) == hops_along(fs, aw, strings_view(visited@)),
            decreases frontier.len() - i,
        {
            let ghost fr = strings_view(frontier@);
            assert(fr.take(i + 1) =~= fr.take(i as int).push(fr[i as int]));
            assert(fr.take(i + 1).to_set() =~= fr.take(i as int).to_set().insert(fr[i as int])) by {
                fr.take(i as int).lemma_push_to_set_commute(fr[i as int]);
            }
            let x = frontier[i].clone();
            assert(x@ == fr[i as int]);
            let ghost vis_before = strings_view(visited@).to_set();
            assert(fr.take(i + 1).drop_last() =~= fr.take(i as int));
            assert(fr.take(i + 1).last() == x@);
            if vec_has(&visited, &x) {
                assert(vis_before.contains(x@));
                assert(fr.take(i + 1).to_set().difference(v0) =~= fr.take(i as int).to_set().difference(
                    v0,
                ));
                assert(v0.union(fr.take(i + 1).to_set()) =~= v0.union(fr.take(i as int).to_set()));
            } else {
                let ghost from_before = fr.take(i as int).to_set().difference(v0);
                let ghost visited_seq_before = strings_view(visited@);
                let ghost hops_before = hops_view(hops@);
                let ghost next_before = strings_view(next@);
                visited.push(x.clone());
                assert(strings_view(visited@) =~= visited_seq_before.push(x@));
                assert(strings_view(visited@).to_set() =~= vis_before.insert(x@)) by {
                    visited_seq_before.lemma_push_to_set_commute(x@);
                }
                expand_subject(&fsv, &as_of_s, &x, &mut hops, &mut next);
                proof {
                    lemma_expand_hops(fs, aw, vis_before, x@, hops_before);
                    lemma_expand_next(fs, aw, from_before, x@, next_before);
                    lemma_picked_hops_insert(fs, aw, vis_before, x@);
                    vstd::seq_lib::lemma_multiset_commutative(
                        hops_before,
                        fs.filter(from_subject(aw, x@)).map_values(|f: FactView| hop_of(f)),
                    );
                }
                let ghost from_after = fr.take(i + 1).to_set().difference(v0);
                assert(!visited_seq_before.contains(x@));
                assert(!vis_before.contains(x@));
                assert(!v0.contains(x@));
                assert(from_after =~= from_before.insert(x@));
                assert(v0.union(fr.take(i + 1).to_set()) =~= vis_before.insert(x@));
                assert(strings_view(visited@).drop_last() =~= visited_seq_before);
                assert(hops_view(hops@) == hops_before + hops_from(fs, aw, x@));
                assert(strings_view(next@) == next_before + objects_from(fs, aw, x@));
            }
            i = i + 1;
        }
        proof {
            let fr = strings_view(frontier@);
            let vis = strings_view(visited@).to_set();
            assert(fr.take(fr.len() as int) =~= fr);
            let n = depth as nat;
            let r_n = reach(fs, entries, aw, n);
            lemma_reach_grows(fs, entries, aw, n);
            if depth > 0 {
                lemma_reach_grows(fs, entries, aw, (n - 1) as nat);
                assert(((n - 1) as nat) + 1 == n);
            }
            assert forall|o: Seq<char>| vis.contains(o) <==> r_n.contains(o) by {
                if r_n.contains(o) && !v0.contains(o) {
                    assert(r_n.difference(v0).contains(o));
                }
            }
            assert(vis =~= r_n);
            let nx = strings_view(next@).to_set();
            let r_n1 = reach(fs, entries, aw, n + 1);
            assert(nx.subset_of(r_n1)) by {
                assert forall|o: Seq<char>| nx.contains(o) implies r_n1.contains(o) by {
                    let k = choose|k: int|
                        0 <= k < fs.len() && in_window(#[trigger] fs[k], aw) && fr.to_set().difference(v0).contains(
                            fs[k].subject,
                        ) && fs[k].object == o;
                    assert(step_objects(fs, aw, r_n).contains(o));
                }
            }
            assert forall|o: Seq<char>| r_n1.difference(vis).contains(o) implies nx.contains(o) by {
                assert(step_objects(fs, aw, r_n).contains(o));
                let k = choose|k: int|
                    0 <= k < fs.len() && in_window(#[trigger] fs[k], aw) && r_n.contains(fs[k].subject)
                        && fs[k].object == o;
                if depth > 0 && reach(fs, entries, aw, (n - 1) as nat).contains(fs[k].subject) {
                    assert(step_objects(fs, aw, reach(fs, entries, aw, (n - 1) as nat)).contains(o));
                }
                if !fr.to_set().contains(fs[k].subject) {
                    assert(r_n.difference(v0).contains(fs[k].subject));
                }
                assert(fr.to_set().difference(v0).contains(fs[k].subject));
            }
        }
        proof {
            let fr = strings_view(frontier@);
            assert(fr.take(fr.len() as int) =~= fr);
            let n = (max_depth - depth) as nat;
            assert(n > 0 && fr.len() > 0);
            assert(walk_order(fs, aw, fr, vs0, n) == walk_order(
                fs,
                aw,
                strings_view(next@),
                strings_view(visited@),
                (n - 1) as nat,
            ));
            assert((n - 1) as nat == (max_depth - (depth + 1)) as nat);
        }
        frontier = next;
        depth = depth + 1;
    }
    assert(walk_order(fs, aw, strings_view(frontier@), strings_view(visited@), (max_depth - depth) as nat)
        == strings_view(visited@));
    proof {
        let vis = strings_view(visited@).to_set();
        let md = max_depth as nat;
        if depth < max_depth {
            // the frontier ran dry: exploration reached a fixpoint
            assert(strings_view(frontier@).to_set() =~= Set::<Seq<char>>::empty());
            if depth == 0 {
                assert forall|o: Seq<char>| !reach(fs, entries, aw, 0).contains(o) by {
                    assert(!reach(fs, entries, aw, 0).difference(vis).contains(o));
                }
                assert(reach(fs, entries, aw, 0) =~= Set::<Seq<char>>::empty());
                assert(step_objects(fs, aw, Set::<Seq<char>>::empty()) =~= Set::<Seq<char>>::empty());
                assert(reach(fs, entries, aw, 1) =~= reach(fs, entries, aw, 0));
                lemma_reach_fixpoint(fs, entries, aw, 0, (md - 1) as nat);
            } else {
                let p = (depth - 1) as nat;
                lemma_reach_grows(fs, entries, aw, p);
                assert(p + 1 == depth as nat);
                assert forall|o: Seq<char>| reach(fs, entries, aw, p + 1).contains(o) implies reach(
                    fs,
                    entries,
                    aw,
                    p,
                ).contains(o) by {
                    assert(!reach(fs, entries, aw, depth as nat).difference(vis).contains(o));
                }
                assert(reach(fs, entries, aw, p + 1) =~= reach(fs, entries, aw, p));
                lemma_reach_fixpoint(fs, entries, aw, p, (md - 1) as nat);
            }
        }
        assert(vis =~= explored(fs, entries, aw, md));
    }
    // collect the facts of the explored subjects, in store order
    let mut out: Vec<Fact> = Vec::new();
    let mut k: usize = 0;
    let ghost sel = found_pred(aw, strings_view(visited@).to_set());
    assert(fs.take(0) =~= Seq::<FactView>::empty());
    reveal(Seq::filter);
    while k < fsv.len()
        invariant
            fs == facts_view(fsv@),
            fs.len() == fsv@.len(),
            aw == opt_str_view(&as_of_s),
            sel == found_pred(aw, strings_view(visited@).to_set()),
            k <= fs.len(),
            facts_view(out@) == fs.take(k as int).filter(sel),
        decreases fsv.len() - k,
    {
        let f = &fsv[k];
        assert(fs[k as int] == f@);
        assert(fs.take(k + 1) =~= fs.take(k as int).push(fs[k as int]));
        proof {
            fs.take(k as int).lemma_filter_push(fs[k as int], sel);
        }
        if in_window_exec(f, &as_of_s) && vec_has(&visited, &f.subject) {
            let ghost ob = out@;
            out.push(f.duplicate());
            assert(facts_view(out@) =~= facts_view(ob).push(f@));
        }
        k = k + 1;
    }
    assert(fs.take(k as int) =~= fs);
    proof {
        lemma_hops_name_found(fs, aw, strings_view(visited@).to_set(), hops_view(hops@));
    }
    Ok(TraversalResult { facts: out, hops })
}

} // verus!
