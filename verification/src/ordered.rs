//! Ordered views of the standard set collections used by the trainer.

use vstd::prelude::*;
use std::collections::BTreeSet;
use std::collections::HashSet;
use vstd::std_specs::iter::IteratorSpec;
use vstd::std_specs::cmp::OrdSpec;

verus! {

broadcast use vstd::std_specs::btree::group_btree_axioms, vstd::std_specs::hash::group_hash_axioms;

/// The elements of a `BTreeSet`, in increasing order.
pub(crate) fn sorted_items(set: &BTreeSet<u64>) -> (r: Vec<u64>)
    ensures
        r@.to_set() == set@,
        forall|i: int, j: int| 0 <= i < j < r@.len() ==> r@[i] < r@[j],
{
    let mut r: Vec<u64> = Vec::new();
    let ghost s = vstd::std_specs::btree::spec_btree_keys_iter(set).remaining();
    for x in it: set.iter()
        invariant
            it.seq() == s,
            r@.len() == it.index(),
            forall|j: int| 0 <= j < r@.len() ==> r@[j] == *s[j],
    {
        r.push(*x);
    }
    assert(r@.len() == s.len());
    assert(s.unref().to_set() == set@);
    assert(r@ =~= s.unref());
    proof { lemma_increasing_refs(s); }
    r
}

/// The iteration order of a `BTreeSet` of `u64` is increasing.
proof fn lemma_increasing_refs(s: Seq<&u64>)
    requires
        vstd::std_specs::btree::increasing_seq(s),
    ensures
        forall|i: int, j: int| 0 <= i < j < s.len() ==> *s[i] < *s[j],
{
    broadcast use vstd::laws_cmp::group_laws_cmp, vstd::laws_cmp::lemma_ref_obeys_cmp_spec;
    assert(vstd::laws_cmp::obeys_cmp::<u64>());
    assert(vstd::laws_cmp::obeys_cmp::<&u64>());
    vstd::std_specs::btree::axiom_increasing_seq_meaning(s);
    assert forall|i: int, j: int| 0 <= i < j < s.len() implies *s[i] < *s[j] by {
        assert(OrdSpec::cmp_spec(&s[i], &s[j]) is Less);
    }
}

/// The smallest element of a `HashSet`, if any.
pub(crate) fn min_item(set: &HashSet<u64>) -> (r: Option<u64>)
    ensures
        r is None ==> forall|k: u64| !set@.contains(k),
        r matches Some(m) ==> set@.contains(m) && forall|k: u64| set@.contains(k) ==> m <= k,
{
    let mut best: Option<u64> = None;
    let ghost s = vstd::std_specs::hash::spec_hash_keys_iter(set).remaining();
    for x in it: set.iter()
        invariant
            it.seq() == s,
            best is None <==> it.index() == 0,
            best matches Some(m) ==> (exists|j: int| 0 <= j < it.index() && *s[j] == m)
                && forall|j: int| 0 <= j < it.index() ==> m <= *s[j],
    {
        match best {
            Some(m) => { if *x < m { best = Some(*x); } },
            None => { best = Some(*x); },
        }
    }
    proof {
        assert(s.unref().to_set() == set@);
        if best is None {
            assert forall|k: u64| !set@.contains(k) by {
                if set@.contains(k) {
                    assert(s.unref().to_set().contains(k));
                }
            }
        }
        if let Some(m) = best {
            let j = choose|j: int| 0 <= j < s.len() && *s[j] == m;
            assert(s.unref()[j] == m);
            assert forall|k: u64| set@.contains(k) implies m <= k by {
                assert(s.unref().to_set().contains(k));
                let i = choose|i: int| 0 <= i < s.unref().len() && s.unref()[i] == k;
                assert(*s[i] == k);
            }
        }
    }
    best
}

} // verus!
