use std::collections::HashSet;
use std::hash::Hash;
use vstd::prelude::*;

use crate::adaptors::sorted;
use vstd::std_specs::hash::obeys_key_model;
use vstd::std_specs::iter::IteratorSpec;

verus! {

/// A hash set holds finitely many members.
pub proof fn lemma_finite<K>(s: &HashSet<K>)
    ensures
        s@.finite(),
{
    vstd::std_specs::hash::axiom_spec_hash_keys_iter(s);
    vstd::seq_lib::seq_to_set_is_finite(
        vstd::std_specs::hash::spec_hash_keys_iter(s).remaining().unref(),
    );
}

/// The members of a hash set, each once, in the order the set yields them.
pub fn elements<K: Copy + Eq + Hash>(s: &HashSet<K>) -> (r: Vec<K>)
    requires
        obeys_key_model::<K>(),
    ensures
        r@.to_set() == s@,
        r@.no_duplicates(),
        r@.len() == s@.len(),
{
    let mut out: Vec<K> = Vec::new();
    for x in it: s.iter()
        invariant
            it.seq().unref().to_set() == s@,
            it.seq().no_duplicates(),
            it.seq().len() == s@.len(),
            out@ == it.seq().unref().take(it.index()),
            it.index() == it.seq().len() ==> out@.to_set() == s@ && out@.no_duplicates(),
    {
        out.push(*x);
        assert(out@ =~= it.seq().unref().take(it.index() + 1));
        assert(it.seq().unref().take(it.seq().len() as int) =~= it.seq().unref());
        assert forall|i: int, j: int|
            0 <= i < it.seq().len() && 0 <= j < it.seq().len() && i != j implies it.seq().unref()[i]
            != it.seq().unref()[j] by {
            assert(it.seq()[i] != it.seq()[j]);
        }
    }
    out
}

/// Adds every member of `more` to `into`.
pub fn extend<K: Copy + Eq + Hash>(into: &mut HashSet<K>, more: &HashSet<K>)
    requires
        obeys_key_model::<K>(),
    ensures
        final(into)@ == old(into)@.union(more@),
{
    let items = elements(more);
    let mut i: usize = 0;
    while i < items.len()
        invariant
            obeys_key_model::<K>(),
            i <= items.len(),
            items@.to_set() == more@,
            into@ == old(into)@.union(items@.take(i as int).to_set()),
        decreases items.len() - i,
    {
        into.insert(items[i]);
        assert(items@.take(i + 1) == items@.take(i as int).push(items@[i as int]));
        assert(items@.take(i + 1).to_set() =~= items@.take(i as int).to_set().insert(items@[i as int])) by {
            items@.take(i as int).lemma_push_to_set_commute(items@[i as int]);
        }
        i += 1;
    }
    assert(items@.take(i as int) == items@);
}

/// A set with the same members as `s`.
pub fn copy<K: Copy + Eq + Hash>(s: &HashSet<K>) -> (r: HashSet<K>)
    requires
        obeys_key_model::<K>(),
    ensures
        r@ == s@,
{
    let mut out: HashSet<K> = HashSet::new();
    extend(&mut out, s);
    assert(out@ =~= s@);
    out
}

/// Whether two sets have the same members.
pub fn same<K: Copy + Eq + Hash>(a: &HashSet<K>, b: &HashSet<K>) -> (r: bool)
    requires
        obeys_key_model::<K>(),
    ensures
        r == (a@ == b@),
{
    if a.len() != b.len() {
        return false;
    }
    let items = elements(a);
    let mut i: usize = 0;
    while i < items.len()
        invariant
            obeys_key_model::<K>(),
            i <= items.len(),
            items@.to_set() == a@,
            forall|j: int| 0 <= j < i ==> b@.contains(#[trigger] items@[j]),
        decreases items.len() - i,
    {
        if !b.contains(&items[i]) {
            assert(a@.contains(items@[i as int]));
            return false;
        }
        i += 1;
    }
    proof {
        assert(a@.subset_of(b@)) by {
            assert forall|x: K| a@.contains(x) implies b@.contains(x) by {
                let j = choose|j: int| 0 <= j < items@.len() && items@[j] == x;
                assert(b@.contains(items@[j]));
            }
        }
        lemma_finite(a);
        lemma_finite(b);
        vstd::set_lib::lemma_subset_equality(a@, b@);
    }
    true
}

/// The given numbers, none of which is there twice, in ascending order.
pub fn ascending<T: Copy + Ord + Integer>(items: Vec<T>) -> (r: Vec<T>)
    requires
        items@.no_duplicates(),
    ensures
        r@.to_set() == items@.to_set(),
        r@.no_duplicates(),
        forall|i: int, j: int|
            #![trigger r@[i], r@[j]]
            0 <= i <= j < r@.len() ==> r@[i] as int <= r@[j] as int,
{
    let ghost given = items@;
    let ordered = sorted(items);
    proof {
        given.to_multiset_ensures();
        ordered@.to_multiset_ensures();
        given.lemma_multiset_has_no_duplicates();
        ordered@.lemma_multiset_has_no_duplicates_conv();
        assert forall|x: T| ordered@.to_set().contains(x) <==> given.to_set().contains(x) by {
            assert(ordered@.contains(x) <==> ordered@.to_multiset().count(x) > 0);
            assert(given.contains(x) <==> given.to_multiset().count(x) > 0);
        }
        assert(ordered@.to_set() =~= given.to_set());
    }
    ordered
}

} // verus!
