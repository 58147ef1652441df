use vstd::prelude::*;

verus! {

/// Whether key `x` ranks at or before key `y`: it is not smaller, comparing the first
/// parts and then the second.
pub open spec fn ranks_before(x: (i128, i128), y: (i128, i128)) -> bool {
    x.0 > y.0 || (x.0 == y.0 && x.1 >= y.1)
}

/// Position `j` occurs in `idx`.
pub open spec fn listed(idx: Seq<usize>, j: int) -> bool {
    exists|a: int| 0 <= a < idx.len() && idx[a] == j
}

/// `idx` lists each position of `keys` once, from the largest key to the smallest.
pub open spec fn ranked_positions(keys: Seq<(i128, i128)>, idx: Seq<usize>) -> bool {
    &&& idx.len() == keys.len()
    &&& forall|a: int| 0 <= a < idx.len() ==> (#[trigger] idx[a]) < keys.len()
    &&& forall|a: int, b: int|
        0 <= a < idx.len() && 0 <= b < idx.len() && a != b ==> (#[trigger] idx[a]) != (
        #[trigger] idx[b])
    &&& forall|j: int| 0 <= j < keys.len() ==> #[trigger] listed(idx, j)
    &&& forall|a: int, b: int|
        0 <= a < b < idx.len() ==> ranks_before(keys[#[trigger] idx[a] as int], keys[#[trigger] idx[b] as int])
}

proof fn lemma_insert_position(keys: Seq<(i128, i128)>, idx: Seq<usize>, i: usize, p: int)
    requires
        0 <= i < keys.len(),
        idx.len() == i,
        0 <= p <= idx.len(),
        forall|a: int| 0 <= a < idx.len() ==> (#[trigger] idx[a]) < i,
        forall|a: int, b: int|
            0 <= a < idx.len() && 0 <= b < idx.len() && a != b ==> (#[trigger] idx[a]) != (
            #[trigger] idx[b]),
        forall|j: int| 0 <= j < i ==> #[trigger] listed(idx, j),
        forall|a: int, b: int|
            0 <= a < b < idx.len() ==> ranks_before(keys[#[trigger] idx[a] as int], keys[#[trigger] idx[b] as int]),
        forall|a: int| 0 <= a < p ==> ranks_before(keys[#[trigger] idx[a] as int], keys[i as int]),
        p < idx.len() ==> !ranks_before(keys[idx[p] as int], keys[i as int]),
    ensures
        ({
            let n = idx.insert(p, i);
            &&& forall|a: int| 0 <= a < n.len() ==> (#[trigger] n[a]) < i + 1
            &&& forall|a: int, b: int|
                0 <= a < n.len() && 0 <= b < n.len() && a != b ==> (#[trigger] n[a]) != (
                #[trigger] n[b])
            &&& forall|j: int| 0 <= j < i + 1 ==> #[trigger] listed(n, j)
            &&& forall|a: int, b: int|
                0 <= a < b < n.len() ==> ranks_before(keys[#[trigger] n[a] as int], keys[#[trigger] n[b] as int])
        }),
{
    let n = idx.insert(p, i);
    assert forall|a: int| 0 <= a < n.len() implies (#[trigger] n[a]) < i + 1 by {
        if a < p {
            assert(n[a] == idx[a]);
        } else if a > p {
            assert(n[a] == idx[a - 1]);
        }
    }
    assert forall|a: int, b: int| 0 <= a < n.len() && 0 <= b < n.len() && a != b implies (
    #[trigger] n[a]) != (#[trigger] n[b]) by {
        if a != p {
            let oa = if a < p { a } else { a - 1 };
            assert(n[a] == idx[oa]);
        }
        if b != p {
            let ob = if b < p { b } else { b - 1 };
            assert(n[b] == idx[ob]);
        }
    }
    assert forall|j: int| 0 <= j < i + 1 implies #[trigger] listed(n, j) by {
        if j == i {
            assert(n[p] == i);
        } else {
            assert(listed(idx, j));
            let a0 = choose|a: int| 0 <= a < idx.len() && idx[a] == j;
            if a0 < p {
                assert(n[a0] == j);
            } else {
                assert(n[a0 + 1] == j);
            }
        }
    }
    assert forall|a: int, b: int| 0 <= a < b < n.len() implies ranks_before(
        keys[#[trigger] n[a] as int],
        keys[#[trigger] n[b] as int],
    ) by {
        if b < p {
            assert(n[a] == idx[a] && n[b] == idx[b]);
        } else if b == p {
            assert(n[a] == idx[a]);
        } else if a < p {
            assert(n[a] == idx[a] && n[b] == idx[b - 1]);
            if p < b - 1 {
                assert(ranks_before(keys[idx[p] as int], keys[idx[b - 1] as int]));
            }
        } else if a == p {
            assert(n[b] == idx[b - 1]);
            if p < b - 1 {
                assert(ranks_before(keys[idx[p] as int], keys[idx[b - 1] as int]));
            }
        } else {
            assert(n[a] == idx[a - 1] && n[b] == idx[b - 1]);
        }
    }
}

/// The positions of `keys`, each once, from the largest key to the smallest; equal keys
/// keep their order.
pub fn rank_positions(keys: &Vec<(i128, i128)>) -> (idx: Vec<usize>)
    ensures
        ranked_positions(keys@, idx@),
{
    let mut idx: Vec<usize> = Vec::new();
    let mut i: usize = 0;
    while i < keys.len()
        invariant
            i <= keys@.len(),
            idx@.len() == i,
            forall|a: int| 0 <= a < idx@.len() ==> (#[trigger] idx@[a]) < i,
            forall|a: int, b: int|
                0 <= a < idx@.len() && 0 <= b < idx@.len() && a != b ==> (#[trigger] idx@[a]) != (
                #[trigger] idx@[b]),
            forall|j: int| 0 <= j < i ==> #[trigger] listed(idx@, j),
            forall|a: int, b: int|
                0 <= a < b < idx@.len() ==> ranks_before(keys@[#[trigger] idx@[a] as int], keys@[#[trigger] idx@[b] as int]),
        decreases keys@.len() - i,
    {
        let k = keys[i];
        let mut p: usize = 0;
        while p < idx.len() && (keys[idx[p]].0 > k.0 || (keys[idx[p]].0 == k.0 && keys[idx[p]].1 >= k.1))
            invariant
                p <= idx@.len(),
                idx@.len() == i,
                i < keys@.len(),
                k == keys@[i as int],
                forall|a: int| 0 <= a < idx@.len() ==> (#[trigger] idx@[a]) < i,
                forall|a: int| 0 <= a < p ==> ranks_before(keys@[#[trigger] idx@[a] as int], keys@[i as int]),
            decreases idx@.len() - p,
        {
            p = p + 1;
        }
        proof {
            lemma_insert_position(keys@, idx@, i, p as int);
        }
        idx.insert(p, i);
        i = i + 1;
    }
    idx
}

} // verus!
