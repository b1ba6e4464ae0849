//! The keys of maps.
use std::collections::BTreeMap;
use vstd::prelude::*;

verus! {

broadcast use vstd::std_specs::btree::group_btree_axioms;

/// The keys of a map.
pub fn keys64<V>(m: &BTreeMap<u64, V>) -> (r: Vec<u64>)
    ensures
        forall|k: u64| #[trigger] r@.contains(k) == m@.contains_key(k),
        r@.no_duplicates(),
{
    let mut out: Vec<u64> = Vec::new();
    for k in it: m.keys()
        invariant
            out@.len() == it.index(),
            it.seq() == vstd::std_specs::iter::IteratorSpec::remaining(
                &vstd::std_specs::btree::spec_keys_iter(m),
            ),
            forall|i: int| 0 <= i < out@.len() ==> out@[i] == *it.seq()[i],
    {
        out.push(*k);
    }
    proof {
        let ks = vstd::std_specs::iter::IteratorSpec::remaining(
                &vstd::std_specs::btree::spec_keys_iter(m),
            );
        assert(out@ =~= ks.unref());
        assert(ks.unref().to_set() == m@.dom());
        assert forall|k: u64| #[trigger] out@.contains(k) == m@.contains_key(k) by {
            assert(ks.unref().to_set().contains(k) == m@.dom().contains(k));
        }
        assert forall|i: int, j: int| 0 <= i < out@.len() && 0 <= j < out@.len() && i
            != j implies out@[i] != out@[j] by {
            assert(ks[i] != ks[j]);
        }
    }
    out
}

} // verus!
