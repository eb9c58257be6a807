//! Distinct in-range indices form a permutation.

use vstd::prelude::*;
use crate::counting::{seq_distinct, seq_in_range};

verus! {

/// A list of `n` distinct indices, all below `n`, holds every index below
/// `n`: it is a permutation of `0..n`.
pub proof fn lemma_slot_of(idx: Seq<u32>, n: int, j: int) -> (k: int)
    requires
        idx.len() == n,
        seq_in_range(idx, n),
        seq_distinct(idx),
        0 <= j < n,
    ensures
        0 <= k < n,
        idx[k] == j,
{
    let s = idx.map_values(|v: u32| v as int);
    vstd::seq_lib::seq_to_set_is_finite(s);
    assert(s.no_duplicates()) by {
        assert forall|a: int, b: int| 0 <= a < s.len() && 0 <= b < s.len() && a != b implies s[a] != s[b] by {
            assert(idx[a] != idx[b]);
        }
    }
    s.unique_seq_to_set();
    let range = vstd::set_lib::set_int_range(0, n);
    vstd::set_lib::lemma_int_range(0, n);
    assert(s.to_set().subset_of(range)) by {
        assert forall|v: int| s.to_set().contains(v) implies range.contains(v) by {
            let t = choose|t: int| 0 <= t < s.len() && s[t] == v;
            assert(idx[t] < n);
        }
    }
    vstd::set_lib::lemma_subset_equality(s.to_set(), range);
    assert(range.contains(j));
    assert(s.to_set().contains(j));
    let k = choose|k: int| 0 <= k < s.len() && s[k] == j;
    k
}

} // verus!
