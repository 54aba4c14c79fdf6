//! When a leak is reported: once, until the label is found not to leak any more.

use crate::text::{same, texts};
use crate::watch::verdict::{verdict_texts, Verdict, VerdictText};
use vstd::prelude::*;

verus! {

/// Which labels have been reported as leaking.
#[derive(Debug)]
pub struct Alerts {
    flagged: Vec<String>,
}

/// The position of a label among those flagged from `i` on, or their number.
pub open spec fn flag_at(flagged: Seq<Seq<char>>, label: Seq<char>, i: int) -> int
    decreases flagged.len() - i,
{
    if i >= flagged.len() {
        flagged.len() as int
    } else if flagged[i] == label {
        i
    } else {
        flag_at(flagged, label, i + 1)
    }
}

proof fn lemma_flag_at(flagged: Seq<Seq<char>>, label: Seq<char>, i: int)
    requires
        0 <= i <= flagged.len(),
    ensures
        i <= flag_at(flagged, label, i) <= flagged.len(),
        forall|k: int| i <= k < flag_at(flagged, label, i) ==> #[trigger] flagged[k] != label,
        flag_at(flagged, label, i) < flagged.len() ==> flagged[flag_at(flagged, label, i)]
            == label,
    decreases flagged.len() - i,
{
    if i < flagged.len() && flagged[i] != label {
        lemma_flag_at(flagged, label, i + 1);
    }
}

/// The labels that are flagged after one more verdict on a label.
pub open spec fn noted(flagged: Set<Seq<char>>, label: Seq<char>, leak: bool) -> Set<Seq<char>> {
    if leak {
        flagged.insert(label)
    } else {
        flagged.remove(label)
    }
}

/// The labels that are flagged after the first `n` of some verdicts.
pub open spec fn noted_all(flagged: Set<Seq<char>>, all: Seq<VerdictText>, n: int) -> Set<
    Seq<char>,
>
    decreases n,
{
    if n <= 0 {
        flagged
    } else {
        noted(noted_all(flagged, all, n - 1), all[n - 1].label, all[n - 1].leak)
    }
}

/// Which of the first `n` verdicts are reported: each that finds a leak in a label that is
/// not flagged by then.
pub open spec fn reported(flagged: Set<Seq<char>>, all: Seq<VerdictText>, n: int) -> Seq<usize>
    decreases n,
{
    if n <= 0 {
        seq![]
    } else {
        let before = reported(flagged, all, n - 1);
        if all[n - 1].leak && !noted_all(flagged, all, n - 1).contains(all[n - 1].label) {
            before.push((n - 1) as usize)
        } else {
            before
        }
    }
}

impl Alerts {
    /// The labels that are flagged.
    pub closed spec fn labels(&self) -> Set<Seq<char>> {
        texts(self.flagged@).to_set()
    }

    /// Whether no label is flagged twice.
    pub closed spec fn wf(&self) -> bool {
        texts(self.flagged@).no_duplicates()
    }

    /// Nothing is flagged.
    pub fn new() -> (r: Self)
        ensures
            r.wf(),
            r.labels() == Set::<Seq<char>>::empty(),
    {
        let r = Alerts { flagged: Vec::new() };
        assert(texts(r.flagged@).to_set() =~= Set::<Seq<char>>::empty());
        r
    }

    fn find(&self, label: &str) -> (i: usize)
        ensures
            i == flag_at(texts(self.flagged@), label@, 0),
            0 <= i <= self.flagged@.len(),
            i < self.flagged@.len() <==> self.labels().contains(label@),
            i < self.flagged@.len() ==> texts(self.flagged@)[i as int] == label@,
    {
        let ghost all = texts(self.flagged@);
        let mut i: usize = 0;
        while i < self.flagged.len() && !same(&self.flagged[i], label)
            invariant
                i <= self.flagged@.len(),
                all == texts(self.flagged@),
                flag_at(all, label@, 0) == flag_at(all, label@, i as int),
            decreases self.flagged@.len() - i,
        {
            assert(all[i as int] == self.flagged@[i as int]@);
            i = i + 1;
        }
        proof {
            lemma_flag_at(all, label@, 0);
            if i < all.len() {
                assert(all[i as int] == self.flagged@[i as int]@);
                assert(all.contains(label@));
            } else if all.contains(label@) {
                let k = choose|k: int| 0 <= k < all.len() && all[k] == label@;
                assert(false);
            }
        }
        i
    }

    /// Notes the verdict on a label. The result says whether the leak is to be reported: it
    /// is, where the label leaks and was not flagged already.
    pub fn note(&mut self, label: &str, leak: bool) -> (report: bool)
        requires
            old(self).wf(),
        ensures
            final(self).wf(),
            final(self).labels() == noted(old(self).labels(), label@, leak),
            report == (leak && !old(self).labels().contains(label@)),
    {
        let i: usize = self.find(label);
        let ghost before = texts(self.flagged@);
        if leak {
            if i < self.flagged.len() {
                assert(before.to_set().insert(label@) =~= before.to_set());
                return false;
            }
            self.flagged.push(String::from_str(label));
            proof {
                let after = texts(self.flagged@);
                assert(after =~= before.push(label@));
                assert(!before.contains(label@));
                assert(after.to_set() =~= before.to_set().insert(label@)) by {
                    assert forall|s: Seq<char>| after.contains(s) <==> before.contains(s) || s
                        == label@ by {
                        if before.contains(s) {
                            let k = choose|k: int| 0 <= k < before.len() && before[k] == s;
                            assert(after[k] == s);
                        }
                        assert(after[before.len() as int] == label@);
                    }
                }
            }
            true
        } else {
            if i < self.flagged.len() {
                self.flagged.remove(i);
                proof {
                    let after = texts(self.flagged@);
                    assert(after =~= before.remove(i as int));
                    assert(after.to_set() =~= before.to_set().remove(label@)) by {
                        assert forall|s: Seq<char>| after.contains(s) <==> before.contains(s) && s
                            != label@ by {
                            if before.contains(s) && s != label@ {
                                let k = choose|k: int| 0 <= k < before.len() && before[k] == s;
                                if k < i {
                                    assert(after[k] == s);
                                } else {
                                    assert(after[k - 1] == s);
                                }
                            }
                            if after.contains(s) {
                                let k = choose|k: int| 0 <= k < after.len() && after[k] == s;
                                if k < i {
                                    assert(before[k] == s);
                                } else {
                                    assert(before[k + 1] == s);
                                }
                            }
                        }
                    }
                }
            } else {
                assert(before.to_set().remove(label@) =~= before.to_set());
            }
            false
        }
    }

    /// Notes verdicts, one after the other. The result holds the positions of those that are
    /// to be reported.
    pub fn note_all(&mut self, verdicts: &Vec<Verdict>) -> (reports: Vec<usize>)
        requires
            old(self).wf(),
        ensures
            final(self).wf(),
            final(self).labels() == noted_all(
                old(self).labels(),
                verdict_texts(verdicts@),
                verdicts@.len() as int,
            ),
            reports@ == reported(
                old(self).labels(),
                verdict_texts(verdicts@),
                verdicts@.len() as int,
            ),
    {
        let ghost first = self.labels();
        let ghost all = verdict_texts(verdicts@);
        let mut reports: Vec<usize> = Vec::new();
        let mut i: usize = 0;
        while i < verdicts.len()
            invariant
                i <= verdicts@.len(),
                all == verdict_texts(verdicts@),
                self.wf(),
                self.labels() == noted_all(first, all, i as int),
                reports@ == reported(first, all, i as int),
            decreases verdicts@.len() - i,
        {
            assert(all[i as int] == verdicts@[i as int]@);
            if self.note(&verdicts[i].label, verdicts[i].leak) {
                reports.push(i);
            }
            i = i + 1;
        }
        reports
    }
}

/// Whether the last of the first `n` verdicts on a label, if there was any, is that it leaks.
pub open spec fn leaked_last(all: Seq<VerdictText>, label: Seq<char>, n: int) -> bool
    decreases n,
{
    if n <= 0 {
        false
    } else if all[n - 1].label == label {
        all[n - 1].leak
    } else {
        leaked_last(all, label, n - 1)
    }
}

/// From none at first, a label is flagged just where the last verdict on it is that it leaks.
pub proof fn law_flagged(all: Seq<VerdictText>, label: Seq<char>, n: int)
    ensures
        noted_all(Set::empty(), all, n).contains(label) <==> leaked_last(all, label, n),
    decreases n,
{
    if n > 0 {
        law_flagged(all, label, n - 1);
    }
}

/// From none flagged at first, a verdict is reported just where it finds a leak and the
/// verdict before it on the same label, if there is one, did not: at the moment a label starts
/// to leak, and not again before it stops.
pub proof fn law_reported(all: Seq<VerdictText>, n: int, i: int)
    requires
        0 <= i < n <= all.len() <= usize::MAX,
    ensures
        reported(Set::empty(), all, n).contains(i as usize) <==> all[i].leak && !leaked_last(
            all,
            all[i].label,
            i,
        ),
    decreases n,
{
    let none = Set::<Seq<char>>::empty();
    let before = reported(none, all, n - 1);
    let now = reported(none, all, n);
    law_flagged(all, all[n - 1].label, n - 1);
    lemma_reported(none, all, n - 1);
    assert(forall|k: int| 0 <= k < before.len() ==> before[k] == #[trigger] now[k]);
    if i < n - 1 {
        law_reported(all, n - 1, i);
        if before.contains(i as usize) {
            let k = choose|k: int| 0 <= k < before.len() && before[k] == i as usize;
            assert(now[k] == i as usize);
        }
        if now.contains(i as usize) {
            let k = choose|k: int| 0 <= k < now.len() && now[k] == i as usize;
            assert(k < before.len());
            assert(before[k] == i as usize);
        }
    } else {
        if now.len() > before.len() {
            assert(now[before.len() as int] == i as usize);
        } else if now.contains(i as usize) {
            let k = choose|k: int| 0 <= k < now.len() && now[k] == i as usize;
            assert(before[k] < n - 1);
        }
    }
}

proof fn lemma_reported(flagged: Set<Seq<char>>, all: Seq<VerdictText>, n: int)
    requires
        n <= all.len() <= usize::MAX,
    ensures
        forall|k: int|
            0 <= k < reported(flagged, all, n).len() ==> (#[trigger] reported(flagged, all, n)[k])
                < n,
    decreases n,
{
    if n > 0 {
        lemma_reported(flagged, all, n - 1);
        let before = reported(flagged, all, n - 1);
        assert(forall|k: int|
            0 <= k < before.len() ==> before[k] == #[trigger] reported(flagged, all, n)[k]);
    }
}

/// Noting some verdicts and then others flags what noting them all at once does.
pub proof fn law_notes_add_up(
    flagged: Set<Seq<char>>,
    first: Seq<VerdictText>,
    later: Seq<VerdictText>,
    n: int,
)
    requires
        0 <= n <= later.len(),
    ensures
        noted_all(noted_all(flagged, first, first.len() as int), later, n) == noted_all(
            flagged,
            first + later,
            first.len() + n,
        ),
    decreases n,
{
    if n > 0 {
        law_notes_add_up(flagged, first, later, n - 1);
        assert((first + later)[first.len() + n - 1] == later[n - 1]);
    } else {
        lemma_noted_prefix(flagged, first, first + later, first.len() as int);
    }
}

proof fn lemma_noted_prefix(
    flagged: Set<Seq<char>>,
    a: Seq<VerdictText>,
    b: Seq<VerdictText>,
    n: int,
)
    requires
        n <= a.len() <= b.len(),
        forall|k: int| 0 <= k < n ==> #[trigger] a[k] == b[k],
    ensures
        noted_all(flagged, a, n) == noted_all(flagged, b, n),
    decreases n,
{
    if n > 0 {
        lemma_noted_prefix(flagged, a, b, n - 1);
        assert(a[n - 1] == b[n - 1]);
    }
}

/// Whether verdict `j` is the last one on its label before verdict `i` on the same label.
pub open spec fn is_previous(all: Seq<VerdictText>, j: int, i: int) -> bool {
    &&& 0 <= j < i
    &&& all[j].label == all[i].label
    &&& forall|m: int| j < m < i ==> (#[trigger] all[m]).label != all[i].label
}

/// Whatever was flagged at first, a verdict is reported just where it finds a leak, and the
/// verdict before it on the same label found none; or where it is the first on a label that
/// leaks and was not flagged. The reports come in the order of the verdicts, none twice.
pub proof fn law_every_report(flagged: Set<Seq<char>>, all: Seq<VerdictText>, n: int, i: int)
    requires
        0 <= i < n <= all.len() <= usize::MAX,
    ensures
        reported(flagged, all, n).contains(i as usize) <==> {
            &&& all[i].leak
            &&& forall|j: int| #[trigger] is_previous(all, j, i) ==> !all[j].leak
            &&& (forall|j: int| 0 <= j < i ==> (#[trigger] all[j]).label != all[i].label)
                ==> !flagged.contains(all[i].label)
        },
        forall|a: int, b: int|
            0 <= a < b < reported(flagged, all, n).len() ==> (#[trigger] reported(
                flagged,
                all,
                n,
            )[a]) < (#[trigger] reported(flagged, all, n)[b]),
    decreases n,
{
    let before = reported(flagged, all, n - 1);
    let now = reported(flagged, all, n);
    lemma_reported(flagged, all, n - 1);
    assert(forall|k: int| 0 <= k < before.len() ==> before[k] == #[trigger] now[k]);
    if n > 1 {
        let m = if i < n - 1 {
            i
        } else {
            0
        };
        law_every_report(flagged, all, n - 1, m);
    }
    if i < n - 1 {
        if before.contains(i as usize) {
            let k = choose|k: int| 0 <= k < before.len() && before[k] == i as usize;
            assert(now[k] == i as usize);
        }
        if now.contains(i as usize) {
            let k = choose|k: int| 0 <= k < now.len() && now[k] == i as usize;
            assert(k < before.len());
            assert(before[k] == i as usize);
        }
    } else {
        lemma_flagged_before(flagged, all, all[i].label, i);
        if now.len() > before.len() {
            assert(now[before.len() as int] == i as usize);
        } else if now.contains(i as usize) {
            let k = choose|k: int| 0 <= k < now.len() && now[k] == i as usize;
            assert(before[k] < n - 1);
        }
        if exists|j: int| 0 <= j < i && (#[trigger] all[j]).label == all[i].label {
            let j = lemma_previous(all, all[i].label, i);
            assert(is_previous(all, j, i));
            assert forall|p: int| #[trigger] is_previous(all, p, i) implies p == j by {
                if p < j {
                    assert(all[j].label != all[i].label);
                } else if j < p {
                    assert(all[p].label != all[i].label);
                }
            }
        } else {
            assert forall|p: int| !#[trigger] is_previous(all, p, i) by {}
        }
    }
}

proof fn lemma_previous(all: Seq<VerdictText>, label: Seq<char>, n: int) -> (j: int)
    requires
        exists|j: int| 0 <= j < n && (#[trigger] all[j]).label == label,
    ensures
        0 <= j < n,
        all[j].label == label,
        forall|m: int| j < m < n ==> (#[trigger] all[m]).label != label,
    decreases n,
{
    if all[n - 1].label == label {
        n - 1
    } else {
        lemma_previous(all, label, n - 1)
    }
}

proof fn lemma_flagged_before(
    flagged: Set<Seq<char>>,
    all: Seq<VerdictText>,
    label: Seq<char>,
    n: int,
)
    requires
        0 <= n <= all.len(),
    ensures
        (forall|j: int| 0 <= j < n ==> (#[trigger] all[j]).label != label) ==> (noted_all(
            flagged,
            all,
            n,
        ).contains(label) <==> flagged.contains(label)),
        forall|j: int|
            0 <= j < n && (#[trigger] all[j]).label == label && (forall|m: int|
                j < m < n ==> (#[trigger] all[m]).label != label) ==> (noted_all(
                flagged,
                all,
                n,
            ).contains(label) <==> all[j].leak),
    decreases n,
{
    if n > 0 {
        lemma_flagged_before(flagged, all, label, n - 1);
    }
}

/// A label is flagged after some verdicts just where the last of them on it found a leak, or
/// where there was none on it and it was flagged before.
pub proof fn law_flagged_after(
    flagged: Set<Seq<char>>,
    all: Seq<VerdictText>,
    label: Seq<char>,
    j: int,
)
    requires
        0 <= j < all.len(),
        all[j].label == label,
        forall|m: int| j < m < all.len() ==> (#[trigger] all[m]).label != label,
    ensures
        noted_all(flagged, all, all.len() as int).contains(label) <==> all[j].leak,
        forall|other: Seq<char>|
            (forall|m: int| 0 <= m < all.len() ==> (#[trigger] all[m]).label != other) ==> (
            #[trigger] noted_all(flagged, all, all.len() as int).contains(other)
                <==> flagged.contains(other)),
{
    lemma_flagged_before(flagged, all, label, all.len() as int);
    assert forall|other: Seq<char>|
        (forall|m: int| 0 <= m < all.len() ==> (#[trigger] all[m]).label != other) implies (
    #[trigger] noted_all(flagged, all, all.len() as int).contains(other) <==> flagged.contains(
        other,
    )) by {
        lemma_flagged_before(flagged, all, other, all.len() as int);
    }
}

} // verus!
