//! Stable ordering by descending score.

use vstd::prelude::*;

verus! {

/// `ord` lists every index of `keys` once, highest key first, and indices
/// with equal keys in increasing order: what a stable sort by descending
/// key produces.
pub open spec fn stable_desc(keys: Seq<u128>, ord: Seq<usize>) -> bool {
    &&& ord.len() == keys.len()
    &&& ord.no_duplicates()
    &&& forall|i: int| 0 <= i < ord.len() ==> #[trigger] ord[i] < keys.len()
    &&& forall|a: int, b: int|
        0 <= a < b < ord.len() ==> keys[#[trigger] ord[a] as int] > keys[#[trigger] ord[b] as int] || (
        keys[ord[a] as int] == keys[ord[b] as int] && ord[a] < ord[b])
}

/// The items in the order `ord` gives.
pub open spec fn arranged<T>(items: Seq<T>, ord: Seq<usize>) -> Seq<T> {
    ord.map_values(|j: usize| items[j as int])
}

/// There is only one stable descending order of given keys.
pub proof fn law_stable_desc_unique(keys: Seq<u128>, o1: Seq<usize>, o2: Seq<usize>)
    requires
        keys.len() <= usize::MAX,
        stable_desc(keys, o1),
        stable_desc(keys, o2),
    ensures
        o1 == o2,
{
    // both are permutations of the same indices, ordered by the same strict total order
    assert forall|i: int| 0 <= i < o1.len() implies o1[i] == o2[i] by {
        lemma_rank(keys, o1, i);
        lemma_rank(keys, o2, i);
        let x = o1[i];
        let y = o2[i];
        // rank of an index = number of indices that precede it in the order
        assert(rank_of(keys, x as int) == i);
        assert(rank_of(keys, y as int) == i);
        lemma_rank_injective(keys, x as int, y as int);
    }
    assert(o1 =~= o2);
}

/// Index `x` comes before index `y`.
pub open spec fn precedes(keys: Seq<u128>, x: int, y: int) -> bool {
    keys[x] > keys[y] || (keys[x] == keys[y] && x < y)
}

/// Number of indices that precede `x`.
pub open spec fn rank_of(keys: Seq<u128>, x: int) -> int {
    Set::new(|y: int| 0 <= y < keys.len() && precedes(keys, y, x)).len() as int
}

proof fn lemma_rank(keys: Seq<u128>, ord: Seq<usize>, i: int)
    requires
        keys.len() <= usize::MAX,
        stable_desc(keys, ord),
        0 <= i < ord.len(),
    ensures
        rank_of(keys, ord[i] as int) == i,
{
    let x = ord[i] as int;
    let s = Set::new(|y: int| 0 <= y < keys.len() && precedes(keys, y, x));
    let t = Set::new(|j: int| 0 <= j < i).map(|j: int| ord[j] as int);
    // every index appears in `ord`
    lemma_ord_covers(keys, ord);
    assert forall|y: int| s.contains(y) <==> t.contains(y) by {
        if s.contains(y) {
            assert(0 <= y < keys.len());
            assert(ord.contains(y as usize));
            let j = choose|j: int| 0 <= j < ord.len() && ord[j] == y as usize;
            assert(ord[j] as int == y);
            if j >= i {
                if j == i {
                    assert(!precedes(keys, x, x));
                    assert(false);
                } else {
                    assert(precedes(keys, x, ord[j] as int));
                    assert(false);
                }
            }
            assert(Set::new(|j: int| 0 <= j < i).contains(j));
            assert(t.contains(y));
        }
        if t.contains(y) {
            let j = choose|j: int| Set::new(|j: int| 0 <= j < i).contains(j) && ord[j] as int == y;
            assert(precedes(keys, ord[j] as int, ord[i] as int));
        }
    }
    assert(s =~= t);
    vstd::set_lib::lemma_int_range(0, i);
    assert(Set::new(|j: int| 0 <= j < i) =~= vstd::set_lib::set_int_range(0, i));
    assert forall|a: int, b: int|
        Set::new(|j: int| 0 <= j < i).contains(a) && Set::new(|j: int| 0 <= j < i).contains(b) && #[trigger] (
        ord[a] as int) == #[trigger] (ord[b] as int) implies a == b by {
        assert(ord.no_duplicates());
    }
    vstd::set_lib::lemma_map_size(
        Set::new(|j: int| 0 <= j < i),
        t,
        |j: int| ord[j] as int,
    );
}

proof fn lemma_ord_covers(keys: Seq<u128>, ord: Seq<usize>)
    requires
        stable_desc(keys, ord),
    ensures
        forall|y: usize| y < keys.len() ==> #[trigger] ord.contains(y),
{
    let idx = ord.map_values(|v: usize| v as int);
    let full = Set::new(|y: int| 0 <= y < keys.len());
    assert(idx.to_set().subset_of(full));
    idx.unique_seq_to_set();
    vstd::set_lib::lemma_int_range(0, keys.len() as int);
    assert(full =~= vstd::set_lib::set_int_range(0, keys.len() as int));
    assert(idx.no_duplicates()) by {
        assert forall|a: int, b: int| 0 <= a < idx.len() && 0 <= b < idx.len() && a != b implies idx[a] != idx[b] by {
            assert(ord[a] != ord[b]);
        }
    }
    idx.unique_seq_to_set();
    vstd::set_lib::lemma_subset_equality(idx.to_set(), full);
    assert forall|y: usize| y < keys.len() implies #[trigger] ord.contains(y) by {
        assert(full.contains(y as int));
        assert(idx.to_set().contains(y as int));
        let j = choose|j: int| 0 <= j < idx.len() && idx[j] == y as int;
        assert(ord[j] == y);
    }
}

proof fn lemma_rank_injective(keys: Seq<u128>, x: int, y: int)
    requires
        0 <= x < keys.len(),
        0 <= y < keys.len(),
        rank_of(keys, x) == rank_of(keys, y),
    ensures
        x == y,
{
    if x != y {
        let (a, b) = if precedes(keys, x, y) {
            (x, y)
        } else {
            (y, x)
        };
        assert(precedes(keys, a, b));
        let sa = Set::new(|z: int| 0 <= z < keys.len() && precedes(keys, z, a));
        let sb = Set::new(|z: int| 0 <= z < keys.len() && precedes(keys, z, b));
        assert(sa.subset_of(sb));
        assert(sb.contains(a) && !sa.contains(a));
        vstd::set_lib::lemma_int_range(0, keys.len() as int);
        assert(sb.subset_of(vstd::set_lib::set_int_range(0, keys.len() as int)));
        vstd::set_lib::lemma_len_subset(sb, vstd::set_lib::set_int_range(0, keys.len() as int));
        assert(sb.finite());
        assert(sa.insert(a).subset_of(sb));
        vstd::set_lib::lemma_len_subset(sa.insert(a), sb);
    }
}

/// The stable descending order of `keys`.
pub fn stable_desc_order(keys: &Vec<u128>) -> (ord: Vec<usize>)
    ensures
        stable_desc(keys@, ord@),
{
    let mut ord: Vec<usize> = Vec::new();
    let mut i: usize = 0;
    while i < keys.len()
        invariant
            i <= keys.len(),
            stable_desc(keys@.take(i as int), ord@),
        decreases keys.len() - i,
    {
        let ghost ks = keys@.take(i as int);
        let ghost ks2 = keys@.take(i + 1);
        let ki = keys[i];
        // first place whose key is lower than keys[i]
        let mut pos: usize = 0;
        while pos < ord.len() && keys[ord[pos]] >= ki
            invariant
                i < keys.len(),
                pos <= ord.len(),
                ks == keys@.take(i as int),
                stable_desc(ks, ord@),
                forall|p: int| 0 <= p < pos ==> keys@[#[trigger] ord@[p] as int] >= ki,
            decreases ord.len() - pos,
        {
            assert(ord@[pos as int] < i);
            pos = pos + 1;
        }
        let ghost old_ord = ord@;
        ord.insert(pos, i);
        assert(ord@ == old_ord.insert(pos as int, i));
        assert forall|p: int| 0 <= p < old_ord.len() implies (#[trigger] old_ord[p]) < i by {}
        assert forall|a: int, b: int| 0 <= a < ord@.len() && 0 <= b < ord@.len() && a != b implies ord@[a]
            != ord@[b] by {
            let x = if a < pos {
                a
            } else if a == pos {
                -1
            } else {
                a - 1
            };
            let y = if b < pos {
                b
            } else if b == pos {
                -1
            } else {
                b - 1
            };
            if x >= 0 {
                assert(ord@[a] == old_ord[x]);
            }
            if y >= 0 {
                assert(ord@[b] == old_ord[y]);
            }
        }
        assert forall|a: int, b: int|
            0 <= a < b < ord@.len() implies ks2[#[trigger] ord@[a] as int] > ks2[#[trigger] ord@[b] as int]
            || (ks2[ord@[a] as int] == ks2[ord@[b] as int] && ord@[a] < ord@[b]) by {
            if a < pos && b < pos {
                assert(ord@[a] == old_ord[a] && ord@[b] == old_ord[b]);
            } else if a < pos && b == pos {
                assert(ord@[a] == old_ord[a]);
                assert(keys@[old_ord[a] as int] >= ki);
            } else if a < pos {
                assert(ord@[a] == old_ord[a] && ord@[b] == old_ord[b - 1]);
            } else if a == pos {
                assert(ord@[b] == old_ord[b - 1]);
                assert(pos < old_ord.len());
                assert(keys@[old_ord[pos as int] as int] < ki);
                if b - 1 > pos {
                    assert(ks[old_ord[pos as int] as int] >= ks[old_ord[b - 1] as int]);
                }
            } else {
                assert(ord@[a] == old_ord[a - 1] && ord@[b] == old_ord[b - 1]);
            }
        }
        i = i + 1;
    }
    assert(keys@.take(i as int) =~= keys@);
    ord
}

} // verus!
