//! Facts about sequences that are kept in order by insertion.

use vstd::prelude::*;

verus! {

/// Inserting an element adds it to the elements of a sequence, wherever it is put.
pub proof fn lemma_insert_multiset<A>(s: Seq<A>, i: int, a: A)
    requires
        0 <= i <= s.len(),
    ensures
        s.insert(i, a).to_multiset() == s.to_multiset().insert(a),
{
    let all = s.insert(i, a);
    assert(all[i] == a);
    assert(all.remove(i) =~= s);
    vstd::seq_lib::to_multiset_remove(all, i);
    all.to_multiset_ensures();
    assert(all.contains(a));
    assert(all.to_multiset() =~= s.to_multiset().insert(a));
}

} // verus!
