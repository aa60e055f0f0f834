use vstd::prelude::*;

use std::collections::BTreeSet;
use vstd::std_specs::iter::IteratorSpec;
use vstd::std_specs::cmp::OrdSpec;

verus! {

/// `u32` keys are totally ordered by `Ord`, as ordered collections expect.
pub proof fn lemma_u32_ordered()
    ensures
        vstd::laws_cmp::obeys_cmp::<u32>(),
        vstd::std_specs::btree::key_obeys_cmp_spec::<u32>(),
{
    broadcast use vstd::laws_cmp::group_laws_cmp;
    broadcast use vstd::std_specs::btree::group_btree_axioms;
}

/// The keys of a `BTreeSet<u32>` are visited in strictly increasing order,
/// each exactly once.
pub proof fn lemma_btree_keys_sorted(set: &BTreeSet<u32>)
    ensures
        vstd::std_specs::btree::spec_btree_keys_iter(set).remaining().unref().to_set() == set@,
        forall|i: int, j: int|
            0 <= i < j < vstd::std_specs::btree::spec_btree_keys_iter(set).remaining().len() ==> *(
            #[trigger] vstd::std_specs::btree::spec_btree_keys_iter(set).remaining()[i])
                < *(#[trigger] vstd::std_specs::btree::spec_btree_keys_iter(set).remaining()[j]),
{
    broadcast use vstd::laws_cmp::group_laws_cmp;
    broadcast use vstd::std_specs::btree::group_btree_axioms;

    broadcast use vstd::laws_cmp::lemma_ref_obeys_cmp_spec;
    assert(vstd::laws_cmp::obeys_cmp::<u32>());
    assert(vstd::laws_cmp::obeys_cmp::<&u32>());
    let r = vstd::std_specs::btree::spec_btree_keys_iter(set).remaining();
    assert(vstd::std_specs::btree::increasing_seq(r));
    vstd::std_specs::btree::axiom_increasing_seq_meaning::<&u32>(r);
    assert forall|i: int, j: int| 0 <= i < j < r.len() implies *r[i] < *r[j] by {
        assert((&r[i]).cmp_spec(&&r[j]) is Less);
    }
}

} // verus!
