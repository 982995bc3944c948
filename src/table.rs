//! Access to the payload stored in a component table.
use vstd::prelude::*;
use std::collections::BTreeMap;
use vstd::std_specs::iter::IteratorSpec;
use vstd::std_specs::cmp::OrdSpec;
use crate::EntityId;

verus! {

/// Relies on `BTreeMap::get_mut`: a mutable borrow of the value stored under
/// `k`, if any; what is written through it is what the map then holds.
#[verifier::external_body]
pub(crate) fn map_get_mut<V>(m: &mut BTreeMap<EntityId, V>, k: EntityId) -> (r: Option<&mut V>)
    ensures
        old(m)@.contains_key(k) ==> r is Some && *r.unwrap() == old(m)@[k] && final(m)@ == old(m)@.insert(
            k,
            *final(r.unwrap()),
        ),
        !old(m)@.contains_key(k) ==> r is None && final(m)@ == old(m)@,
{
    m.get_mut(&k)
}

} // verus!

verus! {

broadcast use vstd::std_specs::btree::group_btree_axioms, vstd::laws_cmp::group_laws_cmp;

/// The keys of `m`, in ascending order.
pub(crate) fn collect_keys<V>(m: &BTreeMap<EntityId, V>) -> (r: Vec<EntityId>)
    ensures
        r@.to_set() == m@.dom(),
        crate::model::ascending(r@),
{
    assert(vstd::laws_cmp::obeys_cmp::<u64>());
    assert(vstd::laws_cmp::obeys_cmp::<&u64>());
    let ghost rs = vstd::std_specs::btree::spec_keys_iter(m).remaining();
    let ghost ks = rs.unref();
    assert(ks.to_set() == m@.dom());
    assert(vstd::std_specs::btree::increasing_seq(rs));
    proof {
        vstd::std_specs::btree::axiom_increasing_seq_meaning::<&u64>(rs);
    }
    assert forall|i: int, j: int| 0 <= i < j < ks.len() implies ks[i] < ks[j] by {
        assert(<&u64 as OrdSpec>::cmp_spec(&rs[i], &rs[j]) is Less);
    }
    let mut r: Vec<EntityId> = Vec::new();
    for k in it: m.keys()
        invariant
            it.seq().unref() == ks,
            r@ == ks.subrange(0, it.index() as int),
    {
        r.push(*k);
    }
    assert(r@ == ks);
    r
}

} // verus!
