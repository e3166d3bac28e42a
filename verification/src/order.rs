//! Coordinates in increasing order: the order in which a `BTreeMap` keyed by
//! coordinates hands out its keys.

use vstd::prelude::*;

use std::collections::BTreeMap;
use vstd::std_specs::cmp::OrdSpec;
use vstd::std_specs::iter::IteratorSpec;

use crate::grid::coord_lt;
use crate::room_map::pt;

verus! {

/// `x` orders before `y`.
spec fn less_than<K: Ord>(x: K, y: K) -> bool {
    x.cmp_spec(&y) is Less
}

/// The keys of a coordinate-keyed map, in increasing coordinate order.
pub fn sorted_keys<V>(m: &BTreeMap<(i64, i64), V>) -> (r: Vec<(i64, i64)>)
    ensures
        r@.to_set() == m@.dom(),
        r@.no_duplicates(),
        r@.len() == m@.dom().len(),
        forall|i: int, j: int| 0 <= i < j < r@.len() ==> coord_lt(pt(#[trigger] r@[i]), pt(#[trigger] r@[j])),
{
    let mut r: Vec<(i64, i64)> = Vec::new();
    let ghost ks = vstd::std_specs::btree::spec_keys_iter(m).remaining();
    for k in it: m.keys()
        invariant
            it.seq() == ks,
            r@.len() == it.index(),
            forall|i: int| 0 <= i < it.index() ==> #[trigger] r@[i] == *ks[i],
    {
        r.push(*k);
    }
    assert(r@ =~= ks.unref());
    proof {
        broadcast use vstd::laws_cmp::group_laws_cmp;

        assert(vstd::std_specs::btree::increasing_seq(ks));
        assert(vstd::laws_cmp::obeys_cmp::<&(i64, i64)>());
        vstd::std_specs::btree::axiom_increasing_seq_meaning(ks);
        assert forall|i: int, j: int| 0 <= i < j < r@.len() implies coord_lt(
            pt(#[trigger] r@[i]),
            pt(#[trigger] r@[j]),
        ) by {
            assert(less_than(ks[i], ks[j]));
        }
    }
    r
}

} // verus!
