use std::collections::BTreeMap;
use vstd::prelude::*;
use vstd::std_specs::btree::*;
use vstd::std_specs::cmp::OrdSpec;
use vstd::std_specs::iter::IteratorSpec;

verus! {

/// Each element is smaller than every element after it.
pub open spec fn strictly_increasing(s: Seq<u64>) -> bool {
    forall|i: int, j: int| 0 <= i < j < s.len() ==> s[i] < s[j]
}

proof fn lemma_keys_increasing<V>(m: &BTreeMap<u64, V>)
    ensures
        strictly_increasing(spec_keys_iter(m).remaining().unref()),
{
    broadcast use vstd::laws_cmp::group_laws_cmp;

    let r = spec_keys_iter(m).remaining();
    assert(vstd::laws_cmp::obeys_cmp::<u64>());
    assert(vstd::laws_cmp::obeys_cmp::<&u64>());
    assert(increasing_seq(r));
    axiom_increasing_seq_meaning(r);
    assert forall|i: int, j: int| 0 <= i < j < r.len() implies *r[i] < *r[j] by {
        let a: &u64 = r[i];
        let b: &u64 = r[j];
        assert(OrdSpec::cmp_spec(&a, &b) is Less);
    }
}

/// The keys of a price-keyed map, lowest first.
pub fn sorted_prices<V>(m: &BTreeMap<u64, V>) -> (v: Vec<u64>)
    ensures
        strictly_increasing(v@),
        v@.to_set() == m@.dom(),
        v@.no_duplicates(),
{
    let mut v: Vec<u64> = Vec::new();
    for p in it: m.keys()
        invariant
            v@ == it.seq().take(it.index() as int).map_values(|r: &u64| *r),
    {
        v.push(*p);
    }
    assert(v@ == spec_keys_iter(m).remaining().unref());
    proof {
        lemma_keys_increasing(m);
    }
    v
}

} // verus!
