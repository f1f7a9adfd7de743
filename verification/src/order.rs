use vstd::prelude::*;

verus! {

/// Position `a` comes before position `b` when its key is smaller, or the keys are equal
/// and `a` is the earlier position: the order of a stable sort.
pub open spec fn pos_before(keys: Seq<u64>, a: usize, b: usize) -> bool {
    keys[a as int] < keys[b as int] || (keys[a as int] == keys[b as int] && a < b)
}

/// `p` lists every position of `keys` once, in the order of a stable sort by key.
pub open spec fn stable_order(keys: Seq<u64>, p: Seq<usize>) -> bool {
    &&& p.len() == keys.len()
    &&& forall|i: int| 0 <= i < p.len() ==> #[trigger] p[i] < keys.len()
    &&& forall|t: usize| t < keys.len() ==> #[trigger] p.contains(t)
    &&& forall|i: int, j: int|
        0 <= i < j < p.len() ==> pos_before(keys, #[trigger] p[i], #[trigger] p[j])
}

/// The positions of `keys` in the order of a stable sort by key.
pub fn stable_positions(keys: &Vec<u64>) -> (p: Vec<usize>)
    ensures
        stable_order(keys@, p@),
{
    let n = keys.len();
    let mut p: Vec<usize> = Vec::new();
    let mut i: usize = 0;
    while i < n
        invariant
            n == keys@.len(),
            i <= n,
            p@.len() == i,
            forall|a: int| 0 <= a < p@.len() ==> #[trigger] p@[a] < i,
            forall|t: usize| t < i ==> #[trigger] p@.contains(t),
            forall|a: int, b: int|
                0 <= a < b < p@.len() ==> pos_before(keys@, #[trigger] p@[a], #[trigger] p@[b]),
        decreases n - i,
    {
        let k = keys[i];
        let mut j: usize = 0;
        while j < p.len() && keys[p[j]] <= k
            invariant
                n == keys@.len(),
                i < n,
                k == keys@[i as int],
                j <= p@.len(),
                forall|a: int| 0 <= a < p@.len() ==> #[trigger] p@[a] < i,
                forall|a: int| 0 <= a < j ==> keys@[#[trigger] p@[a] as int] <= k,
                forall|a: int, b: int|
                    0 <= a < b < p@.len() ==> pos_before(keys@, #[trigger] p@[a], #[trigger] p@[b]),
            decreases p@.len() - j,
        {
            j += 1;
        }
        proof {
            if j < p@.len() {
                assert(keys@[p@[j as int] as int] > k);
                assert forall|a: int| j <= a < p@.len() implies keys@[#[trigger] p@[a] as int] > k by {
                    if a > j {
                        assert(pos_before(keys@, p@[j as int], p@[a]));
                    }
                }
            }
        }
        let ghost old_p = p@;
        p.insert(j, i);
        proof {
            assert(p@ == old_p.insert(j as int, i));
            assert forall|a: int| 0 <= a < p@.len() implies #[trigger] p@[a] < i + 1 by {
                if a < j {
                    assert(p@[a] == old_p[a]);
                } else if a > j {
                    assert(p@[a] == old_p[a - 1]);
                }
            }
            assert forall|t: usize| t < i + 1 implies #[trigger] p@.contains(t) by {
                if t == i {
                    assert(p@[j as int] == i);
                } else {
                    assert(old_p.contains(t));
                    let a = choose|a: int| 0 <= a < old_p.len() && old_p[a] == t;
                    if a < j {
                        assert(p@[a] == t);
                    } else {
                        assert(p@[a + 1] == t);
                    }
                }
            }
            assert forall|a: int, b: int| 0 <= a < b < p@.len() implies pos_before(
                keys@,
                #[trigger] p@[a],
                #[trigger] p@[b],
            ) by {
                if b < j {
                    assert(p@[a] == old_p[a] && p@[b] == old_p[b]);
                } else if b == j {
                    assert(p@[a] == old_p[a]);
                    assert(keys@[old_p[a] as int] <= k);
                } else if a == j {
                    assert(p@[b] == old_p[b - 1]);
                    assert(keys@[old_p[b - 1] as int] > k);
                } else if a < j {
                    assert(p@[a] == old_p[a] && p@[b] == old_p[b - 1]);
                } else {
                    assert(p@[a] == old_p[a - 1] && p@[b] == old_p[b - 1]);
                }
            }
        }
        i += 1;
    }
    p
}

} // verus!
