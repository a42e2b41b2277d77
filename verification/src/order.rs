//! Ordering of rows by a three-part key (lexicographic, ascending, stable).

use vstd::prelude::*;

verus! {

/// Sort key: compared part by part.
pub type Key3 = (i64, i64, i64);

/// `a` sorts no later than `b`.
pub open spec fn key_le(a: Key3, b: Key3) -> bool {
    a.0 < b.0 || (a.0 == b.0 && (a.1 < b.1 || (a.1 == b.1 && a.2 <= b.2)))
}

/// `order` lists every index of `keys` exactly once.
pub open spec fn is_index_permutation(order: Seq<usize>, n: int) -> bool {
    &&& order.len() == n
    &&& forall|i: int| 0 <= i < order.len() ==> #[trigger] order[i] < n
    &&& forall|i: int, j: int| 0 <= i < j < order.len() ==> order[i] != order[j]
    &&& forall|x: int| 0 <= x < n ==> #[trigger] lists_index(order, x)
}

/// `order` holds the index `x` somewhere.
pub open spec fn lists_index(order: Seq<usize>, x: int) -> bool {
    exists|q: int| 0 <= q < order.len() && order[q] == x
}

/// The keys taken in `order` never decrease.
pub open spec fn sorted_by_keys(order: Seq<usize>, keys: Seq<Key3>) -> bool {
    forall|i: int, j: int|
        0 <= i < j < order.len() ==> key_le(keys[order[i] as int], keys[order[j] as int])
}

/// Compares two keys.
pub fn key_le_exec(a: &Key3, b: &Key3) -> (r: bool)
    ensures
        r == key_le(*a, *b),
{
    a.0 < b.0 || (a.0 == b.0 && (a.1 < b.1 || (a.1 == b.1 && a.2 <= b.2)))
}

/// Indexes of `keys` in ascending key order (ties keep their original order).
pub fn sort_by_keys(keys: &Vec<Key3>) -> (r: Vec<usize>)
    ensures
        is_index_permutation(r@, keys@.len() as int),
        sorted_by_keys(r@, keys@),
{
    let n = keys.len();
    let mut out: Vec<usize> = Vec::new();
    let mut i: usize = 0;
    while i < n
        invariant
            n == keys@.len(),
            i <= n,
            is_index_permutation(out@, i as int),
            sorted_by_keys(out@, keys@),
        decreases n - i,
    {
        let ki = keys[i];
        let mut p: usize = 0;
        while p < out.len() && key_le_exec(&keys[out[p]], &ki)
            invariant
                n == keys@.len(),
                i < n,
                ki == keys@[i as int],
                p <= out@.len(),
                is_index_permutation(out@, i as int),
                sorted_by_keys(out@, keys@),
                forall|q: int| 0 <= q < p ==> key_le(#[trigger] keys@[out@[q] as int], ki),
            decreases out@.len() - p,
        {
            p = p + 1;
        }
        proof {
            // Every entry from p on sorts strictly after the new key.
            assert forall|q: int| p <= q < out@.len() implies !key_le(#[trigger] keys@[out@[q] as int], ki) by {
                if p < out@.len() {
                    assert(!key_le(keys@[out@[p as int] as int], ki));
                    if q > p {
                        assert(key_le(keys@[out@[p as int] as int], keys@[out@[q] as int]));
                    }
                }
            }
        }
        let ghost old_out = out@;
        out.insert(p, i);
        proof {
            assert(out@ == old_out.insert(p as int, i));
            assert forall|a: int, b: int| 0 <= a < b < out@.len() implies key_le(
                keys@[out@[a] as int],
                keys@[out@[b] as int],
            ) by {
                if a < p && b < p {
                    assert(out@[a] == old_out[a] && out@[b] == old_out[b]);
                } else if a < p && b == p {
                    assert(out@[a] == old_out[a]);
                } else if a < p && b > p {
                    assert(out@[a] == old_out[a] && out@[b] == old_out[b - 1]);
                    assert(key_le(keys@[old_out[a] as int], ki));
                    assert(!key_le(keys@[old_out[b - 1] as int], ki));
                } else if a == p {
                    assert(out@[b] == old_out[b - 1]);
                    assert(!key_le(keys@[old_out[b - 1] as int], ki));
                } else {
                    assert(out@[a] == old_out[a - 1] && out@[b] == old_out[b - 1]);
                }
            }
            assert forall|a: int, b: int| 0 <= a < b < out@.len() implies out@[a] != out@[b] by {
                if a < p && b < p {
                } else if a < p && b == p {
                } else if a < p && b > p {
                    assert(out@[b] == old_out[b - 1]);
                } else if a == p {
                    assert(out@[b] == old_out[b - 1]);
                } else {
                    assert(out@[a] == old_out[a - 1] && out@[b] == old_out[b - 1]);
                }
            }
            assert forall|x: int| 0 <= x < i + 1 implies #[trigger] lists_index(out@, x) by {
                if x == i {
                    assert(out@[p as int] == x);
                } else {
                    assert(lists_index(old_out, x));
                    let q0 = choose|q: int| 0 <= q < old_out.len() && old_out[q] == x;
                    if q0 < p {
                        assert(out@[q0] == x);
                    } else {
                        assert(out@[q0 + 1] == x);
                    }
                }
            }
            assert forall|a: int| 0 <= a < out@.len() implies #[trigger] out@[a] < i + 1 by {
                if a < p {
                } else if a == p {
                } else {
                    assert(out@[a] == old_out[a - 1]);
                }
            }
        }
        i = i + 1;
    }
    out
}

} // verus!
