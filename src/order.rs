use vstd::prelude::*;

verus! {

/// The entries of `s` picked out by `order`: the `k`-th is `s[order[k]]`.
pub open spec fn reorder<A>(s: Seq<A>, order: Seq<usize>) -> Seq<A> {
    Seq::new(order.len(), |k: int| s[order[k] as int])
}

/// `perm` lists each position of `keys` once, by ascending key, and equal keys keep their order.
pub open spec fn is_stable_sort(keys: Seq<u64>, perm: Seq<usize>) -> bool {
    &&& perm.len() == keys.len()
    &&& forall|a: int| 0 <= a < perm.len() ==> (#[trigger] perm[a]) < keys.len()
    &&& forall|a: int, b: int|
        0 <= a < b < perm.len() ==> #[trigger] perm[a] != #[trigger] perm[b]
    &&& forall|a: int, b: int|
        0 <= a < b < perm.len() ==> keys[#[trigger] perm[a] as int] <= keys[#[trigger] perm[b] as int]
    &&& forall|a: int, b: int|
        0 <= a < b < perm.len() && keys[#[trigger] perm[a] as int] == keys[#[trigger] perm[b] as int]
            ==> perm[a] < perm[b]
}

/// A list of `n` distinct positions below `n` holds each of them.
pub proof fn lemma_distinct_positions_cover(perm: Seq<usize>, n: nat)
    requires
        perm.len() == n,
        forall|a: int| 0 <= a < perm.len() ==> (#[trigger] perm[a]) < n,
        forall|a: int, b: int| 0 <= a < b < perm.len() ==> #[trigger] perm[a] != #[trigger] perm[b],
    ensures
        forall|j: usize| j < n ==> #[trigger] perm.contains(j),
{
    broadcast use vstd::seq_lib::seq_to_set_is_finite;

    let s = perm.map_values(|x: usize| x as int);
    assert forall|a: int, b: int| 0 <= a < s.len() && 0 <= b < s.len() && a != b implies s[a]
        != s[b] by {
        if a < b {
            assert(perm[a] != perm[b]);
        } else {
            assert(perm[b] != perm[a]);
        }
    }
    s.unique_seq_to_set();
    vstd::set_lib::lemma_int_range(0, n as int);
    let range = vstd::set_lib::set_int_range(0, n as int);
    assert(s.to_set().subset_of(range)) by {
        assert forall|x: int| s.to_set().contains(x) implies range.contains(x) by {
            let a = choose|a: int| 0 <= a < s.len() && s[a] == x;
            assert(perm[a] < n);
        }
    }
    vstd::set_lib::lemma_subset_equality(s.to_set(), range);
    assert forall|j: usize| j < n implies #[trigger] perm.contains(j) by {
        assert(range.contains(j as int));
        assert(s.to_set().contains(j as int));
        let a = choose|a: int| 0 <= a < s.len() && s[a] == j as int;
        assert(perm[a] == j);
    }
}

proof fn lemma_stable_sorts_agree_at(keys: Seq<u64>, p1: Seq<usize>, p2: Seq<usize>, a: int)
    requires
        is_stable_sort(keys, p1),
        is_stable_sort(keys, p2),
        0 <= a < keys.len(),
        forall|b: int| 0 <= b < a ==> p1[b] == p2[b],
    ensures
        p1[a] == p2[a],
{
    let n = keys.len();
    let u = p1[a];
    let v = p2[a];
    if u != v {
        lemma_distinct_positions_cover(p1, n);
        lemma_distinct_positions_cover(p2, n);
        assert(p2.contains(u));
        assert(p1.contains(v));
        let b2 = choose|b: int| 0 <= b < n && p2[b] == u;
        let b1 = choose|b: int| 0 <= b < n && p1[b] == v;
        if b2 < a {
            assert(p1[b2] == p2[b2]);
            assert(p1[b2] != p1[a]);
        }
        if b1 < a {
            assert(p1[b1] == p2[b1]);
            assert(p2[b1] != p2[a]);
        }
        assert(a < b2 && a < b1);
        assert(keys[p2[a] as int] <= keys[p2[b2] as int]);
        assert(keys[p1[a] as int] <= keys[p1[b1] as int]);
    }
}

/// The stable order by key is unique: two lists that both sort `keys` stably are the same.
pub proof fn lemma_stable_sort_unique(keys: Seq<u64>, p1: Seq<usize>, p2: Seq<usize>)
    requires
        is_stable_sort(keys, p1),
        is_stable_sort(keys, p2),
    ensures
        p1 == p2,
{
    assert forall|a: int| 0 <= a < keys.len() implies p1[a] == p2[a] by {
        lemma_stable_sort_prefix_agrees(keys, p1, p2, a + 1);
    }
    assert(p1 =~= p2);
}

proof fn lemma_stable_sort_prefix_agrees(keys: Seq<u64>, p1: Seq<usize>, p2: Seq<usize>, m: int)
    requires
        is_stable_sort(keys, p1),
        is_stable_sort(keys, p2),
        0 <= m <= keys.len(),
    ensures
        forall|b: int| 0 <= b < m ==> p1[b] == p2[b],
    decreases m,
{
    if m > 0 {
        lemma_stable_sort_prefix_agrees(keys, p1, p2, m - 1);
        lemma_stable_sorts_agree_at(keys, p1, p2, m - 1);
    }
}

/// Orders the positions of `distances` by ascending distance, keeping equal distances in their
/// order, and returns that order together with the sorted distances.
///
/// A distance is given by its order key: a larger key stands for a larger distance.
pub fn sort_by_distance(distances: &[u64]) -> (r: (Vec<usize>, Vec<u64>))
    ensures
        is_stable_sort(distances@, r.0@),
        r.1@ == reorder(distances@, r.0@),
{
    let n = distances.len();
    let mut perm: Vec<usize> = Vec::new();
    let mut i: usize = 0;
    while i < n
        invariant
            i <= n,
            n == distances@.len(),
            perm@.len() == i,
            forall|a: int| 0 <= a < i ==> (#[trigger] perm@[a]) < i,
            forall|a: int, b: int| 0 <= a < b < i ==> #[trigger] perm@[a] != #[trigger] perm@[b],
            forall|a: int, b: int|
                0 <= a < b < i ==> distances@[#[trigger] perm@[a] as int]
                    <= distances@[#[trigger] perm@[b] as int],
            forall|a: int, b: int|
                0 <= a < b < i && distances@[#[trigger] perm@[a] as int]
                    == distances@[#[trigger] perm@[b] as int] ==> perm@[a] < perm@[b],
        decreases n - i,
    {
        let key = distances[i];
        let mut pos: usize = 0;
        loop
            invariant
                pos <= i,
                i < n,
                n == distances@.len(),
                perm@.len() == i,
                forall|a: int| 0 <= a < i ==> (#[trigger] perm@[a]) < i,
                forall|a: int| 0 <= a < pos ==> distances@[#[trigger] perm@[a] as int] <= key,
            ensures
                pos <= i,
                forall|a: int| 0 <= a < pos ==> distances@[#[trigger] perm@[a] as int] <= key,
                pos < i ==> distances@[perm@[pos as int] as int] > key,
            decreases i - pos,
        {
            if pos == i {
                break;
            }
            if distances[perm[pos]] > key {
                break;
            }
            pos += 1;
        }
        let ghost prev = perm@;
        perm.insert(pos, i);
        proof {
            assert forall|a: int| pos <= a < i implies distances@[#[trigger] prev[a] as int] > key by {
                if a > pos {
                    assert(distances@[prev[pos as int] as int] <= distances@[prev[a] as int]);
                }
            }
            assert forall|a: int, b: int| 0 <= a < b < i + 1 implies #[trigger] perm@[a]
                != #[trigger] perm@[b] by {
                if a < pos && b > pos {
                    assert(perm@[b] == prev[b - 1]);
                } else if a > pos {
                    assert(perm@[a] == prev[a - 1]);
                }
            }
            assert forall|a: int, b: int| 0 <= a < b < i + 1 implies distances@[
                #[trigger] perm@[a] as int] <= distances@[#[trigger] perm@[b] as int] by {
                if a < pos && b > pos {
                    assert(perm@[b] == prev[b - 1]);
                } else if a > pos {
                    assert(perm@[a] == prev[a - 1]);
                }
            }
            assert forall|a: int, b: int|
                0 <= a < b < i + 1 && distances@[#[trigger] perm@[a] as int]
                    == distances@[#[trigger] perm@[b] as int] implies perm@[a] < perm@[b] by {
                if a < pos && b > pos {
                    assert(perm@[b] == prev[b - 1]);
                } else if a > pos {
                    assert(perm@[a] == prev[a - 1]);
                }
            }
        }
        i += 1;
    }
    let mut sorted: Vec<u64> = Vec::new();
    let mut k: usize = 0;
    while k < n
        invariant
            k <= n,
            n == distances@.len(),
            perm@.len() == n,
            forall|a: int| 0 <= a < n ==> (#[trigger] perm@[a]) < n,
            sorted@ == reorder(distances@, perm@.take(k as int)),
        decreases n - k,
    {
        sorted.push(distances[perm[k]]);
        k += 1;
        assert(sorted@ =~= reorder(distances@, perm@.take(k as int)));
    }
    assert(perm@.take(n as int) =~= perm@);
    (perm, sorted)
}

/// The order key of the IEEE 754 double whose bit pattern is `bits`: for numbers the keys are
/// ordered as the numbers are, negative ones below positive ones.
pub open spec fn order_key(bits: u64) -> u64 {
    if bits >> 63u64 == 1u64 {
        !bits
    } else {
        bits | 0x8000_0000_0000_0000u64
    }
}

/// The order key of a double given by its bit pattern (see `order_key`).
pub fn order_key_of_bits(bits: u64) -> (r: u64)
    ensures
        r == order_key(bits),
{
    if bits >> 63u64 == 1u64 {
        !bits
    } else {
        bits | 0x8000_0000_0000_0000u64
    }
}

/// Non-negative doubles grow with their bit pattern and negative ones shrink with it; the keys
/// follow the first order, reverse the second, and put every negative below every non-negative.
pub proof fn lemma_order_key_monotone(a: u64, b: u64)
    ensures
        (a >> 63u64 == 0u64 && b >> 63u64 == 0u64) ==> (a <= b <==> order_key(a) <= order_key(b)),
        (a >> 63u64 == 1u64 && b >> 63u64 == 1u64) ==> (a <= b <==> order_key(b) <= order_key(a)),
        (a >> 63u64 == 1u64 && b >> 63u64 == 0u64) ==> order_key(a) < order_key(b),
{
    assert((a >> 63u64 == 0u64 && b >> 63u64 == 0u64) ==> (a <= b <==> (a
        | 0x8000_0000_0000_0000u64) <= (b | 0x8000_0000_0000_0000u64))) by (bit_vector);
    assert((a >> 63u64 == 1u64 && b >> 63u64 == 1u64) ==> (a <= b <==> !b <= !a)) by (bit_vector);
    assert((a >> 63u64 == 1u64 && b >> 63u64 == 0u64) ==> !a < (b | 0x8000_0000_0000_0000u64))
        by (bit_vector);
    assert(a >> 63u64 == 0u64 || a >> 63u64 == 1u64) by (bit_vector);
    assert(b >> 63u64 == 0u64 || b >> 63u64 == 1u64) by (bit_vector);
}

} // verus!
