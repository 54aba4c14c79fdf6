//! Counting how often each of many keys comes up.

use crate::text::{
    comes_before, copy_opt, law_precedes_total, law_precedes_transitive, opt_text, precedes,
    same_opt, texts,
};
use vstd::prelude::*;

verus! {

// ---- in the order of first appearance ------------------------------------------------------

/// A key, which may be absent, and how often it came up.
pub type Count = (Option<Seq<char>>, nat);

/// What a list of counted keys says.
pub open spec fn counts(s: Seq<(Option<String>, usize)>) -> Seq<Count> {
    Seq::new(s.len(), |i: int| (opt_text(s[i].0), s[i].1 as nat))
}

/// What a list of keys says.
pub open spec fn keys_of(s: Seq<Option<String>>) -> Seq<Option<Seq<char>>> {
    Seq::new(s.len(), |i: int| opt_text(s[i]))
}

/// The position of a key among the counted ones from `i` on, or their number.
pub open spec fn slot(t: Seq<Count>, key: Option<Seq<char>>, i: int) -> int
    decreases t.len() - i,
{
    if i >= t.len() {
        t.len() as int
    } else if t[i].0 == key {
        i
    } else {
        slot(t, key, i + 1)
    }
}

/// The counts after a key came up once more.
pub open spec fn bumped(t: Seq<Count>, key: Option<Seq<char>>) -> Seq<Count> {
    let i = slot(t, key, 0);
    if i < t.len() {
        t.update(i, (key, t[i].1 + 1))
    } else {
        t.push((key, 1))
    }
}

/// How often each key comes up, in the order in which they first do.
pub open spec fn tallied(keys: Seq<Option<Seq<char>>>) -> Seq<Count>
    decreases keys.len(),
{
    if keys.len() == 0 {
        seq![]
    } else {
        bumped(tallied(keys.drop_last()), keys.last())
    }
}

/// How often a key comes up.
pub open spec fn occurrences(keys: Seq<Option<Seq<char>>>, key: Option<Seq<char>>) -> nat
    decreases keys.len(),
{
    if keys.len() == 0 {
        0
    } else {
        occurrences(keys.drop_last(), key) + if keys.last() == key {
            1nat
        } else {
            0nat
        }
    }
}

proof fn lemma_slot(t: Seq<Count>, key: Option<Seq<char>>, i: int)
    requires
        0 <= i <= t.len(),
    ensures
        i <= slot(t, key, i) <= t.len(),
        forall|k: int| i <= k < slot(t, key, i) ==> (#[trigger] t[k]).0 != key,
        slot(t, key, i) < t.len() ==> t[slot(t, key, i)].0 == key,
    decreases t.len() - i,
{
    if i < t.len() && t[i].0 != key {
        lemma_slot(t, key, i + 1);
    }
}

proof fn lemma_occurrences_bound(keys: Seq<Option<Seq<char>>>, key: Option<Seq<char>>)
    ensures
        occurrences(keys, key) <= keys.len(),
        keys.contains(key) <==> occurrences(keys, key) > 0,
    decreases keys.len(),
{
    if keys.len() > 0 {
        lemma_occurrences_bound(keys.drop_last(), key);
        if keys.contains(key) {
            let i = choose|i: int| 0 <= i < keys.len() && keys[i] == key;
            if i < keys.len() - 1 {
                assert(keys.drop_last()[i] == key);
            }
        }
        if keys.drop_last().contains(key) {
            let i = choose|i: int| 0 <= i < keys.len() - 1 && keys.drop_last()[i] == key;
            assert(keys[i] == key);
        }
        if keys.last() == key {
            assert(keys[keys.len() - 1] == key);
        }
    }
}

/// Each key that comes up is counted once, with the number of times it came up; nothing
/// else is counted.
pub proof fn law_tally(keys: Seq<Option<Seq<char>>>)
    ensures
        forall|i: int|
            0 <= i < tallied(keys).len() ==> {
                &&& (#[trigger] tallied(keys)[i]).1 == occurrences(keys, tallied(keys)[i].0)
                &&& tallied(keys)[i].1 > 0
            },
        forall|i: int, j: int|
            0 <= i < j < tallied(keys).len() ==> (#[trigger] tallied(keys)[i]).0 != (
            #[trigger] tallied(keys)[j]).0,
        forall|key: Option<Seq<char>>|
            keys.contains(key) ==> exists|i: int|
                0 <= i < tallied(keys).len() && (#[trigger] tallied(keys)[i]).0 == key,
    decreases keys.len(),
{
    if keys.len() > 0 {
        let fewer = keys.drop_last();
        let key = keys.last();
        let before = tallied(fewer);
        let after = tallied(keys);
        law_tally(fewer);
        lemma_slot(before, key, 0);
        lemma_occurrences_bound(fewer, key);
        let s = slot(before, key, 0);
        if s == before.len() && fewer.contains(key) {
            let i = choose|i: int| 0 <= i < before.len() && (#[trigger] before[i]).0 == key;
            assert(false);
        }
        assert(forall|i: int|
            0 <= i < before.len() && i != s ==> #[trigger] after[i] == before[i]);
        assert(after[s] == (key, (if s < before.len() {
            before[s].1 + 1
        } else {
            1nat
        })));
        assert forall|k: Option<Seq<char>>| keys.contains(k) implies exists|i: int|
            0 <= i < after.len() && (#[trigger] after[i]).0 == k by {
            if k == key {
                assert(after[s].0 == k);
            } else {
                let n = choose|n: int| 0 <= n < keys.len() && keys[n] == k;
                assert(fewer[n] == k);
                assert(fewer.contains(k));
                let i = choose|i: int| 0 <= i < before.len() && (#[trigger] before[i]).0 == k;
                assert(after[i].0 == k);
            }
        }
        assert forall|i: int| 0 <= i < after.len() implies {
            &&& (#[trigger] after[i]).1 == occurrences(keys, after[i].0)
            &&& after[i].1 > 0
        } by {
            if i != s {
                assert(after[i] == before[i]);
            }
        }
    } else {
        assert forall|key: Option<Seq<char>>| !keys.contains(key) by {}
    }
}

/// How often each key comes up, in the order in which they first do.
pub fn tally(keys: &Vec<Option<String>>) -> (r: Vec<(Option<String>, usize)>)
    ensures
        counts(r@) == tallied(keys_of(keys@)),
{
    let mut t: Vec<(Option<String>, usize)> = Vec::new();
    let mut n: usize = 0;
    let ghost all = keys_of(keys@);
    assert(counts(t@) =~= tallied(all.take(0)));
    while n < keys.len()
        invariant
            n <= keys@.len(),
            all == keys_of(keys@),
            counts(t@) == tallied(all.take(n as int)),
        decreases keys@.len() - n,
    {
        let ghost before = counts(t@);
        proof {
            law_tally(all.take(n as int));
            assert(all.take(n + 1).drop_last() =~= all.take(n as int));
        }
        let mut i: usize = 0;
        while i < t.len() && !same_opt(&t[i].0, &keys[n])
            invariant
                i <= t@.len(),
                n < keys@.len(),
                before == counts(t@),
                slot(before, opt_text(keys@[n as int]), 0) == slot(
                    before,
                    opt_text(keys@[n as int]),
                    i as int,
                ),
            decreases t@.len() - i,
        {
            assert(before[i as int].0 == opt_text(t@[i as int].0));
            i = i + 1;
        }
        if i < t.len() {
            proof {
                assert(before[i as int].1 == t@[i as int].1);
                lemma_occurrences_bound(all.take(n as int), before[i as int].0);
                assert(before[i as int].0 == opt_text(keys@[n as int]));
            }
            let count: usize = t[i].1 + 1;
            t.set(i, (copy_opt(&keys[n]), count));
        } else {
            t.push((copy_opt(&keys[n]), 1));
        }
        assert(counts(t@) =~= bumped(before, opt_text(keys@[n as int])));
        n = n + 1;
    }
    assert(all.take(n as int) =~= all);
    t
}

// ---- in the order of the keys --------------------------------------------------------------

/// What a list of counted texts says.
pub open spec fn text_counts(s: Seq<(String, usize)>) -> Seq<(Seq<char>, nat)> {
    Seq::new(s.len(), |i: int| (s[i].0@, s[i].1 as nat))
}

/// The position of the first counted text from `i` on that does not come before the key,
/// or their number.
pub open spec fn place(t: Seq<(Seq<char>, nat)>, key: Seq<char>, i: int) -> int
    decreases t.len() - i,
{
    if i >= t.len() {
        t.len() as int
    } else if !precedes(t[i].0, key) {
        i
    } else {
        place(t, key, i + 1)
    }
}

/// The counts after a text came up once more, its place kept or found by its order.
pub open spec fn bumped_in_order(t: Seq<(Seq<char>, nat)>, key: Seq<char>) -> Seq<
    (Seq<char>, nat),
> {
    let i = place(t, key, 0);
    if i < t.len() && t[i].0 == key {
        t.update(i, (key, t[i].1 + 1))
    } else {
        t.insert(i, (key, 1nat))
    }
}

/// How often each text comes up, in the order of the texts.
pub open spec fn tallied_in_order(keys: Seq<Seq<char>>) -> Seq<(Seq<char>, nat)>
    decreases keys.len(),
{
    if keys.len() == 0 {
        seq![]
    } else {
        bumped_in_order(tallied_in_order(keys.drop_last()), keys.last())
    }
}

/// How often a text comes up.
pub open spec fn text_occurrences(keys: Seq<Seq<char>>, key: Seq<char>) -> nat
    decreases keys.len(),
{
    if keys.len() == 0 {
        0
    } else {
        text_occurrences(keys.drop_last(), key) + if keys.last() == key {
            1nat
        } else {
            0nat
        }
    }
}

proof fn lemma_place(t: Seq<(Seq<char>, nat)>, key: Seq<char>, i: int)
    requires
        0 <= i <= t.len(),
    ensures
        i <= place(t, key, i) <= t.len(),
        forall|k: int| i <= k < place(t, key, i) ==> precedes((#[trigger] t[k]).0, key),
        place(t, key, i) < t.len() ==> !precedes(t[place(t, key, i)].0, key),
    decreases t.len() - i,
{
    if i < t.len() && precedes(t[i].0, key) {
        lemma_place(t, key, i + 1);
    }
}

proof fn lemma_text_occurrences_bound(keys: Seq<Seq<char>>, key: Seq<char>)
    ensures
        text_occurrences(keys, key) <= keys.len(),
        keys.contains(key) <==> text_occurrences(keys, key) > 0,
    decreases keys.len(),
{
    if keys.len() > 0 {
        lemma_text_occurrences_bound(keys.drop_last(), key);
        if keys.contains(key) {
            let i = choose|i: int| 0 <= i < keys.len() && keys[i] == key;
            if i < keys.len() - 1 {
                assert(keys.drop_last()[i] == key);
            }
        }
        if keys.drop_last().contains(key) {
            let i = choose|i: int| 0 <= i < keys.len() - 1 && keys.drop_last()[i] == key;
            assert(keys[i] == key);
        }
        if keys.last() == key {
            assert(keys[keys.len() - 1] == key);
        }
    }
}

/// The counted texts stand in strictly rising order; each has the number of times it came
/// up, and every text that came up is among them.
pub proof fn law_tally_in_order(keys: Seq<Seq<char>>)
    ensures
        forall|i: int|
            0 <= i < tallied_in_order(keys).len() ==> {
                &&& (#[trigger] tallied_in_order(keys)[i]).1 == text_occurrences(
                    keys,
                    tallied_in_order(keys)[i].0,
                )
                &&& tallied_in_order(keys)[i].1 > 0
            },
        forall|i: int, j: int|
            0 <= i < j < tallied_in_order(keys).len() ==> precedes(
                (#[trigger] tallied_in_order(keys)[i]).0,
                (#[trigger] tallied_in_order(keys)[j]).0,
            ),
        forall|key: Seq<char>|
            keys.contains(key) ==> exists|i: int|
                0 <= i < tallied_in_order(keys).len() && (#[trigger] tallied_in_order(keys)[i]).0
                    == key,
    decreases keys.len(),
{
    if keys.len() > 0 {
        let fewer = keys.drop_last();
        let key = keys.last();
        let before = tallied_in_order(fewer);
        let after = tallied_in_order(keys);
        law_tally_in_order(fewer);
        lemma_place(before, key, 0);
        lemma_text_occurrences_bound(fewer, key);
        let s = place(before, key, 0);
        let met = s < before.len() && before[s].0 == key;
        assert forall|k: int| s <= k < before.len() && !met implies precedes(
            key,
            (#[trigger] before[k]).0,
        ) by {
            law_precedes_total(key, before[s].0);
            if k > s {
                law_precedes_transitive(key, before[s].0, before[k].0);
            }
        }
        if !met && fewer.contains(key) {
            let i = choose|i: int| 0 <= i < before.len() && (#[trigger] before[i]).0 == key;
            law_precedes_total(key, key);
            assert(false);
        }
        assert(after[s].0 == key);
        assert(forall|i: int| 0 <= i < s ==> #[trigger] after[i] == before[i]);
        assert(met ==> forall|i: int| s < i < after.len() ==> #[trigger] after[i] == before[i]);
        assert(!met ==> forall|i: int|
            s < i < after.len() ==> #[trigger] after[i] == before[i - 1]);
        assert forall|i: int| 0 <= i < after.len() implies {
            &&& (#[trigger] after[i]).1 == text_occurrences(keys, after[i].0)
            &&& after[i].1 > 0
        } by {
            let old_at = if met || i < s {
                i
            } else {
                i - 1
            };
            if i != s {
                assert(after[i] == before[old_at]);
                law_precedes_total(key, key);
                if met {
                    if i < s {
                        assert(precedes(before[i].0, before[s].0));
                    } else {
                        assert(precedes(before[s].0, before[i].0));
                    }
                }
                assert(after[i].0 != key);
            }
        }
        assert forall|i: int, j: int| 0 <= i < j < after.len() implies precedes(
            (#[trigger] after[i]).0,
            (#[trigger] after[j]).0,
        ) by {
            let i0 = if met || i < s {
                i
            } else {
                i - 1
            };
            let j0 = if met || j < s {
                j
            } else {
                j - 1
            };
            if i != s && j != s {
                assert(after[i] == before[i0]);
                assert(after[j] == before[j0]);
            } else if i == s {
                assert(after[j] == before[j0]);
            } else {
                assert(after[i] == before[i0]);
            }
        }
        assert forall|k: Seq<char>| keys.contains(k) implies exists|i: int|
            0 <= i < after.len() && (#[trigger] after[i]).0 == k by {
            if k == key {
                assert(after[s].0 == k);
            } else {
                let n = choose|n: int| 0 <= n < keys.len() && keys[n] == k;
                assert(fewer[n] == k);
                assert(fewer.contains(k));
                let i = choose|i: int| 0 <= i < before.len() && (#[trigger] before[i]).0 == k;
                if met || i < s {
                    assert(after[i].0 == k);
                } else {
                    assert(after[i + 1].0 == k);
                }
            }
        }
    } else {
        assert forall|key: Seq<char>| !keys.contains(key) by {}
    }
}

/// How often each text comes up, in the order of the texts.
pub fn tally_in_order(keys: &Vec<String>) -> (r: Vec<(String, usize)>)
    ensures
        text_counts(r@) == tallied_in_order(texts(keys@)),
{
    let mut t: Vec<(String, usize)> = Vec::new();
    let mut n: usize = 0;
    let ghost all = texts(keys@);
    assert(text_counts(t@) =~= tallied_in_order(all.take(0)));
    while n < keys.len()
        invariant
            n <= keys@.len(),
            all == texts(keys@),
            text_counts(t@) == tallied_in_order(all.take(n as int)),
        decreases keys@.len() - n,
    {
        let ghost before = text_counts(t@);
        proof {
            law_tally_in_order(all.take(n as int));
            assert(all.take(n + 1).drop_last() =~= all.take(n as int));
        }
        let mut i: usize = 0;
        while i < t.len() && comes_before(&t[i].0, &keys[n])
            invariant
                i <= t@.len(),
                n < keys@.len(),
                before == text_counts(t@),
                place(before, keys@[n as int]@, 0) == place(before, keys@[n as int]@, i as int),
            decreases t@.len() - i,
        {
            assert(before[i as int].0 == t@[i as int].0@);
            i = i + 1;
        }
        assert(i < t@.len() ==> before[i as int].0 == t@[i as int].0@);
        if i < t.len() && t[i].0 == keys[n] {
            proof {
                assert(before[i as int].1 == t@[i as int].1);
                lemma_text_occurrences_bound(all.take(n as int), before[i as int].0);
            }
            let count: usize = t[i].1 + 1;
            t.set(i, (keys[n].clone(), count));
            assert(text_counts(t@) =~= before.update(i as int, (keys@[n as int]@, count as nat)));
        } else {
            t.insert(i, (keys[n].clone(), 1));
            assert(text_counts(t@) =~= before.insert(i as int, (keys@[n as int]@, 1nat)));
        }
        n = n + 1;
    }
    assert(all.take(n as int) =~= all);
    t
}

/// The sum of all counts.
pub open spec fn total(t: Seq<(Seq<char>, nat)>) -> nat
    decreases t.len(),
{
    if t.len() == 0 {
        0
    } else {
        total(t.drop_last()) + t.last().1
    }
}

proof fn lemma_total_insert(t: Seq<(Seq<char>, nat)>, i: int, x: (Seq<char>, nat))
    requires
        0 <= i <= t.len(),
    ensures
        total(t.insert(i, x)) == total(t) + x.1,
    decreases t.len(),
{
    let all = t.insert(i, x);
    if i == t.len() {
        assert(all.drop_last() =~= t);
    } else {
        lemma_total_insert(t.drop_last(), i, x);
        assert(all.drop_last() =~= t.drop_last().insert(i, x));
        assert(all.last() == t.last());
    }
}

proof fn lemma_total_update(t: Seq<(Seq<char>, nat)>, i: int, x: (Seq<char>, nat))
    requires
        0 <= i < t.len(),
    ensures
        total(t.update(i, x)) + t[i].1 == total(t) + x.1,
    decreases t.len(),
{
    let all = t.update(i, x);
    if i == t.len() - 1 {
        assert(all.drop_last() =~= t.drop_last());
    } else {
        lemma_total_update(t.drop_last(), i, x);
        assert(all.drop_last() =~= t.drop_last().update(i, x));
        assert(all.last() == t.last());
    }
}

/// The counts add up to the number of texts that came up.
pub proof fn law_tally_total(keys: Seq<Seq<char>>)
    ensures
        total(tallied_in_order(keys)) == keys.len(),
    decreases keys.len(),
{
    if keys.len() > 0 {
        let before = tallied_in_order(keys.drop_last());
        let key = keys.last();
        let i = place(before, key, 0);
        law_tally_total(keys.drop_last());
        lemma_place(before, key, 0);
        if i < before.len() && before[i].0 == key {
            lemma_total_update(before, i, (key, before[i].1 + 1));
        } else {
            lemma_total_insert(before, i, (key, 1nat));
        }
    }
}

// ---- how counts grow -----------------------------------------------------------------------

/// One more key adds one to its own count and to no other.
pub proof fn law_occurrences(
    keys: Seq<Option<Seq<char>>>,
    more: Option<Seq<char>>,
    key: Option<Seq<char>>,
)
    ensures
        occurrences(seq![], key) == 0,
        occurrences(keys.push(more), key) == occurrences(keys, key) + if more == key {
            1int
        } else {
            0int
        },
{
    assert(keys.push(more).drop_last() =~= keys);
}

/// One more text adds one to its own count and to no other.
pub proof fn law_text_occurrences(keys: Seq<Seq<char>>, more: Seq<char>, key: Seq<char>)
    ensures
        text_occurrences(seq![], key) == 0,
        text_occurrences(keys.push(more), key) == text_occurrences(keys, key) + if more == key {
            1int
        } else {
            0int
        },
{
    assert(keys.push(more).drop_last() =~= keys);
}

/// The keys of a tally stand in the order in which they first came up: a key that is there
/// already leaves all of them in their places, and a new one goes to the end.
pub proof fn law_tally_keeps_order(keys: Seq<Option<Seq<char>>>, key: Option<Seq<char>>)
    ensures
        ({
            let before = tallied(keys);
            let after = tallied(keys.push(key));
            &&& forall|i: int| 0 <= i < before.len() ==> (#[trigger] after[i]).0 == before[i].0
            &&& keys.contains(key) ==> after.len() == before.len()
            &&& !keys.contains(key) ==> {
                &&& after.len() == before.len() + 1
                &&& after.last() == (key, 1nat)
            }
        }),
{
    assert(keys.push(key).drop_last() =~= keys);
    let before = tallied(keys);
    law_tally(keys);
    lemma_slot(before, key, 0);
    lemma_tallied_keys(keys);
    let s = slot(before, key, 0);
    if keys.contains(key) {
        let i = choose|i: int| 0 <= i < before.len() && (#[trigger] before[i]).0 == key;
        assert(s < before.len());
    } else if s < before.len() {
        assert(keys.contains(before[s].0));
    }
}

proof fn lemma_tallied_keys(keys: Seq<Option<Seq<char>>>)
    ensures
        forall|i: int|
            0 <= i < tallied(keys).len() ==> keys.contains((#[trigger] tallied(keys)[i]).0),
    decreases keys.len(),
{
    if keys.len() > 0 {
        let fewer = keys.drop_last();
        let key = keys.last();
        let before = tallied(fewer);
        let after = tallied(keys);
        lemma_tallied_keys(fewer);
        lemma_slot(before, key, 0);
        assert forall|i: int| 0 <= i < after.len() implies keys.contains(
            (#[trigger] after[i]).0,
        ) by {
            if i < before.len() && i != slot(before, key, 0) {
                assert(after[i] == before[i]);
                assert(fewer.contains(before[i].0));
                let k = choose|k: int| 0 <= k < fewer.len() && fewer[k] == before[i].0;
                assert(keys[k] == after[i].0);
            } else {
                assert(keys[keys.len() - 1] == after[i].0);
            }
        }
    }
}

} // verus!
