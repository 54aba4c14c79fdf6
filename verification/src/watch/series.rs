//! The history of each label: what its processes held together at each time.
//!
//! A time is an integer that orders as the moments do.

use crate::text::same;
use vstd::prelude::*;

verus! {

/// What the processes of a label held together at one time, as it was stored.
#[derive(Debug)]
pub struct SampleSum {
    pub label: String,
    pub time: u64,
    pub rss: i64,
    pub vram: i64,
}

/// What a stored sum says.
pub struct SumText {
    pub label: Seq<char>,
    pub time: u64,
    pub rss: i64,
    pub vram: i64,
}

impl View for SampleSum {
    type V = SumText;

    open spec fn view(&self) -> SumText {
        SumText { label: self.label@, time: self.time, rss: self.rss, vram: self.vram }
    }
}

/// What stored sums say.
pub open spec fn sum_texts(s: Seq<SampleSum>) -> Seq<SumText> {
    Seq::new(s.len(), |i: int| s[i]@)
}

/// The bytes that were held at one time, in the machine and on graphics devices.
#[derive(Debug, Clone, Copy, PartialEq, Eq, Structural)]
pub struct Sample {
    pub time: u64,
    pub rss: u64,
    pub vram: u64,
}

/// The history of a label.
#[derive(Debug)]
pub struct Series {
    pub label: String,
    pub samples: Vec<Sample>,
}

/// What a history says.
#[verifier::ext_equal]
pub struct SeriesText {
    pub label: Seq<char>,
    pub samples: Seq<Sample>,
}

impl View for Series {
    type V = SeriesText;

    open spec fn view(&self) -> SeriesText {
        SeriesText { label: self.label@, samples: self.samples@ }
    }
}

/// What histories say.
pub open spec fn series_texts(s: Seq<Series>) -> Seq<SeriesText> {
    Seq::new(s.len(), |i: int| s[i]@)
}

// ---- by label ------------------------------------------------------------------------------

/// A stored number of bytes, where one below zero counts as none.
pub open spec fn bytes_of(stored: i64) -> u64 {
    if stored < 0 {
        0
    } else {
        stored as u64
    }
}

/// The sample of a stored sum.
pub open spec fn sample_of(s: SumText) -> Sample {
    Sample { time: s.time, rss: bytes_of(s.rss), vram: bytes_of(s.vram) }
}

/// The position of the history of a label from `i` on, or the number of histories.
pub open spec fn series_at(all: Seq<SeriesText>, label: Seq<char>, i: int) -> int
    decreases all.len() - i,
{
    if i >= all.len() {
        all.len() as int
    } else if all[i].label == label {
        i
    } else {
        series_at(all, label, i + 1)
    }
}

/// The histories after one more stored sum.
pub open spec fn with_sum(all: Seq<SeriesText>, s: SumText) -> Seq<SeriesText> {
    let i = series_at(all, s.label, 0);
    if i < all.len() {
        all.update(
            i,
            SeriesText { label: s.label, samples: all[i].samples.push(sample_of(s)) },
        )
    } else {
        all.push(SeriesText { label: s.label, samples: seq![sample_of(s)] })
    }
}

/// The histories of the labels, in the order in which the labels first come up.
pub open spec fn grouped(sums: Seq<SumText>) -> Seq<SeriesText>
    decreases sums.len(),
{
    if sums.len() == 0 {
        seq![]
    } else {
        with_sum(grouped(sums.drop_last()), sums.last())
    }
}

/// The samples of one label.
pub open spec fn samples_of(sums: Seq<SumText>, label: Seq<char>) -> Seq<Sample>
    decreases sums.len(),
{
    if sums.len() == 0 {
        seq![]
    } else {
        let before = samples_of(sums.drop_last(), label);
        if sums.last().label == label {
            before.push(sample_of(sums.last()))
        } else {
            before
        }
    }
}

/// Whether a label comes up among the stored sums.
pub open spec fn has_label(sums: Seq<SumText>, label: Seq<char>) -> bool {
    exists|i: int| 0 <= i < sums.len() && (#[trigger] sums[i]).label == label
}

proof fn lemma_series_at(all: Seq<SeriesText>, label: Seq<char>, i: int)
    requires
        0 <= i <= all.len(),
    ensures
        i <= series_at(all, label, i) <= all.len(),
        forall|k: int| i <= k < series_at(all, label, i) ==> (#[trigger] all[k]).label != label,
        series_at(all, label, i) < all.len() ==> all[series_at(all, label, i)].label == label,
    decreases all.len() - i,
{
    if i < all.len() && all[i].label != label {
        lemma_series_at(all, label, i + 1);
    }
}

/// No label is there that did not come up.
proof fn lemma_no_samples(sums: Seq<SumText>, label: Seq<char>)
    requires
        !has_label(sums, label),
    ensures
        samples_of(sums, label).len() == 0,
    decreases sums.len(),
{
    if sums.len() > 0 {
        let fewer = sums.drop_last();
        if has_label(fewer, label) {
            let i = choose|i: int| 0 <= i < fewer.len() && (#[trigger] fewer[i]).label == label;
            assert(sums[i].label == label);
        }
        assert(sums[sums.len() - 1].label != label);
        lemma_no_samples(fewer, label);
    }
}

/// Every label that comes up has one history, and no other label has one; the history holds
/// the samples of its label, all of them, in the order in which they were stored.
pub proof fn law_grouped(sums: Seq<SumText>)
    ensures
        forall|i: int, j: int|
            0 <= i < j < grouped(sums).len() ==> (#[trigger] grouped(sums)[i]).label != (
            #[trigger] grouped(sums)[j]).label,
        forall|i: int|
            0 <= i < grouped(sums).len() ==> {
                &&& has_label(sums, (#[trigger] grouped(sums)[i]).label)
                &&& grouped(sums)[i].samples == samples_of(sums, grouped(sums)[i].label)
            },
        forall|label: Seq<char>| #[trigger]
            has_label(sums, label) ==> exists|i: int|
                0 <= i < grouped(sums).len() && (#[trigger] grouped(sums)[i]).label == label,
    decreases sums.len(),
{
    if sums.len() > 0 {
        let fewer = sums.drop_last();
        let s = sums.last();
        let before = grouped(fewer);
        let after = grouped(sums);
        law_grouped(fewer);
        lemma_series_at(before, s.label, 0);
        let at = series_at(before, s.label, 0);
        if at == before.len() {
            if has_label(fewer, s.label) {
                let i = choose|i: int|
                    0 <= i < before.len() && (#[trigger] before[i]).label == s.label;
                assert(false);
            }
            lemma_no_samples(fewer, s.label);
            assert(samples_of(sums, s.label) =~= seq![sample_of(s)]);
        }
        assert(forall|i: int|
            0 <= i < before.len() && i != at ==> #[trigger] after[i] == before[i]);
        assert(after[at].label == s.label);
        assert(after[at].samples =~= samples_of(sums, s.label));
        assert(sums[sums.len() - 1].label == s.label);
        assert forall|i: int| 0 <= i < after.len() implies {
            &&& has_label(sums, (#[trigger] after[i]).label)
            &&& after[i].samples == samples_of(sums, after[i].label)
        } by {
            if i != at {
                assert(after[i] == before[i]);
                let k = choose|k: int|
                    0 <= k < fewer.len() && (#[trigger] fewer[k]).label == before[i].label;
                assert(sums[k].label == after[i].label);
            }
        }
        assert forall|label: Seq<char>| #[trigger] has_label(sums, label) implies exists|i: int|
            0 <= i < after.len() && (#[trigger] after[i]).label == label by {
            if label == s.label {
                assert(after[at].label == label);
            } else {
                let k = choose|k: int| 0 <= k < sums.len() && (#[trigger] sums[k]).label == label;
                assert(fewer[k].label == label);
                assert(has_label(fewer, label));
                let i = choose|i: int|
                    0 <= i < before.len() && (#[trigger] before[i]).label == label;
                assert(after[i].label == label);
            }
        }
    }
}

/// Whether times never fall.
pub open spec fn in_time(samples: Seq<Sample>) -> bool {
    forall|i: int, j: int|
        0 <= i < j < samples.len() ==> (#[trigger] samples[i]).time <= (
        #[trigger] samples[j]).time
}

/// Whether the times of stored sums never fall.
pub open spec fn sums_in_time(sums: Seq<SumText>) -> bool {
    forall|i: int, j: int|
        0 <= i < j < sums.len() ==> (#[trigger] sums[i]).time <= (#[trigger] sums[j]).time
}

proof fn lemma_samples_in_time(sums: Seq<SumText>, label: Seq<char>)
    requires
        sums_in_time(sums),
    ensures
        in_time(samples_of(sums, label)),
        forall|i: int|
            0 <= i < samples_of(sums, label).len() ==> sums.len() > 0 && (#[trigger] samples_of(
                sums,
                label,
            )[i]).time <= sums.last().time,
    decreases sums.len(),
{
    if sums.len() > 0 {
        let fewer = sums.drop_last();
        assert forall|i: int, j: int| 0 <= i < j < fewer.len() implies (#[trigger] fewer[i]).time
            <= (#[trigger] fewer[j]).time by {
            assert(sums[i].time <= sums[j].time);
        }
        lemma_samples_in_time(fewer, label);
        if fewer.len() > 0 {
            assert(sums[fewer.len() - 1].time <= sums[sums.len() - 1].time);
        }
    }
}

/// Where the sums were stored in time, so is each history.
pub proof fn law_grouped_in_time(sums: Seq<SumText>)
    requires
        sums_in_time(sums),
    ensures
        forall|i: int|
            0 <= i < grouped(sums).len() ==> in_time((#[trigger] grouped(sums)[i]).samples),
{
    law_grouped(sums);
    assert forall|i: int| 0 <= i < grouped(sums).len() implies in_time(
        (#[trigger] grouped(sums)[i]).samples,
    ) by {
        lemma_samples_in_time(sums, grouped(sums)[i].label);
    }
}

fn to_bytes(stored: i64) -> (r: u64)
    ensures
        r == bytes_of(stored),
{
    if stored < 0 {
        0
    } else {
        stored as u64
    }
}

/// The histories of the labels, in the order in which the labels first come up.
pub fn series_by_label(sums: &Vec<SampleSum>) -> (r: Vec<Series>)
    ensures
        series_texts(r@) == grouped(sum_texts(sums@)),
{
    let ghost all = sum_texts(sums@);
    let mut r: Vec<Series> = Vec::new();
    let mut n: usize = 0;
    assert(series_texts(r@) =~= grouped(all.take(0)));
    while n < sums.len()
        invariant
            n <= sums@.len(),
            all == sum_texts(sums@),
            series_texts(r@) == grouped(all.take(n as int)),
        decreases sums@.len() - n,
    {
        let ghost before = series_texts(r@);
        let ghost s = all[n as int];
        assert(s == sums@[n as int]@);
        assert(all.take(n + 1).drop_last() =~= all.take(n as int));
        let mut i: usize = 0;
        while i < r.len() && !same(&r[i].label, &sums[n].label)
            invariant
                i <= r@.len(),
                n < sums@.len(),
                before == series_texts(r@),
                s == sums@[n as int]@,
                series_at(before, s.label, 0) == series_at(before, s.label, i as int),
            decreases r@.len() - i,
        {
            assert(before[i as int].label == r@[i as int].label@);
            i = i + 1;
        }
        let sample = Sample {
            time: sums[n].time,
            rss: to_bytes(sums[n].rss),
            vram: to_bytes(sums[n].vram),
        };
        if i < r.len() {
            assert(before[i as int] == r@[i as int]@);
            r[i].samples.push(sample);
            assert(r@[i as int]@ =~= with_sum(before, s)[i as int]);
        } else {
            let mut samples: Vec<Sample> = Vec::new();
            samples.push(sample);
            r.push(Series { label: sums[n].label.clone(), samples });
            assert(r@.last()@ =~= (SeriesText { label: s.label, samples: seq![sample_of(s)] }));
        }
        assert(series_texts(r@) =~= with_sum(before, s));
        n = n + 1;
    }
    assert(all.take(n as int) =~= all);
    r
}

// ---- a window of time ----------------------------------------------------------------------

/// The number of recent samples that a verdict takes.
pub const LEAST_ASSESSED: usize = 6;

/// The number of recent samples that a chart takes.
pub const LEAST_CHARTED: usize = 2;

/// The samples that are not older than `cutoff`.
pub open spec fn recent(samples: Seq<Sample>, cutoff: u64) -> Seq<Sample> {
    samples.filter(|s: Sample| s.time >= cutoff)
}

/// Of the first `n` histories, those with at least `least` samples that are not older than
/// `cutoff`, cut down to these samples.
pub open spec fn windowed(all: Seq<SeriesText>, cutoff: u64, least: nat, n: int) -> Seq<SeriesText>
    decreases n,
{
    if n <= 0 {
        seq![]
    } else {
        let before = windowed(all, cutoff, least, n - 1);
        let kept = recent(all[n - 1].samples, cutoff);
        if kept.len() >= least {
            before.push(SeriesText { label: all[n - 1].label, samples: kept })
        } else {
            before
        }
    }
}

fn keep_recent(samples: &Vec<Sample>, cutoff: u64) -> (r: Vec<Sample>)
    ensures
        r@ == recent(samples@, cutoff),
{
    let mut r: Vec<Sample> = Vec::new();
    let mut i: usize = 0;
    proof {
        reveal(Seq::filter);
    }
    assert(r@ =~= recent(samples@.take(0), cutoff));
    while i < samples.len()
        invariant
            i <= samples@.len(),
            r@ == recent(samples@.take(i as int), cutoff),
        decreases samples@.len() - i,
    {
        proof {
            reveal(Seq::filter);
            assert(samples@.take(i + 1).drop_last() =~= samples@.take(i as int));
        }
        if samples[i].time >= cutoff {
            r.push(samples[i]);
        }
        i = i + 1;
    }
    assert(samples@.take(i as int) =~= samples@);
    r
}

/// The histories with at least `least` samples that are not older than `cutoff`, cut down to
/// these samples.
pub fn in_window(all: &Vec<Series>, cutoff: u64, least: usize) -> (r: Vec<Series>)
    ensures
        series_texts(r@) == windowed(series_texts(all@), cutoff, least as nat, all@.len() as int),
{
    let ghost texts = series_texts(all@);
    let mut r: Vec<Series> = Vec::new();
    let mut i: usize = 0;
    assert(series_texts(r@) =~= windowed(texts, cutoff, least as nat, 0));
    while i < all.len()
        invariant
            i <= all@.len(),
            texts == series_texts(all@),
            series_texts(r@) == windowed(texts, cutoff, least as nat, i as int),
        decreases all@.len() - i,
    {
        let ghost before = series_texts(r@);
        assert(texts[i as int] == all@[i as int]@);
        let samples = keep_recent(&all[i].samples, cutoff);
        if samples.len() >= least {
            let ghost kept = SeriesText { label: texts[i as int].label, samples: samples@ };
            r.push(Series { label: all[i].label.clone(), samples });
            assert(r@.last()@ =~= kept);
            assert(series_texts(r@) =~= before.push(kept));
        }
        i = i + 1;
    }
    r
}

proof fn lemma_recent(samples: Seq<Sample>, cutoff: u64)
    ensures
        recent(samples, cutoff).len() <= samples.len(),
        in_time(samples) ==> in_time(recent(samples, cutoff)),
        forall|i: int|
            0 <= i < recent(samples, cutoff).len() ==> samples.contains(
                #[trigger] recent(samples, cutoff)[i],
            ) && recent(samples, cutoff)[i].time >= cutoff,
        in_time(samples) && recent(samples, cutoff).len() > 0 ==> recent(samples, cutoff).last()
            == samples.last(),
    decreases samples.len(),
{
    reveal(Seq::filter);
    let kept = recent(samples, cutoff);
    if samples.len() > 0 {
        let fewer = samples.drop_last();
        let before = recent(fewer, cutoff);
        lemma_recent(fewer, cutoff);
        assert forall|i: int| 0 <= i < kept.len() implies samples.contains(#[trigger] kept[i])
            && kept[i].time >= cutoff by {
            if i < before.len() {
                assert(kept[i] == before[i]);
                assert(fewer.contains(before[i]));
                let k = choose|k: int| 0 <= k < fewer.len() && fewer[k] == before[i];
                assert(samples[k] == kept[i]);
            } else {
                assert(samples[samples.len() - 1] == kept[i]);
            }
        }
        if in_time(samples) {
            assert forall|i: int, j: int| 0 <= i < j < fewer.len() implies (
            #[trigger] fewer[i]).time <= (#[trigger] fewer[j]).time by {
                assert(samples[i].time <= samples[j].time);
            }
            assert forall|i: int, j: int| 0 <= i < j < kept.len() implies (
            #[trigger] kept[i]).time <= (#[trigger] kept[j]).time by {
                assert(kept[i] == before[i]);
                if j < before.len() {
                    assert(kept[j] == before[j]);
                } else {
                    assert(fewer.contains(before[i]));
                    let k = choose|k: int| 0 <= k < fewer.len() && fewer[k] == before[i];
                    assert(samples[k].time <= samples[samples.len() - 1].time);
                }
            }
            if kept.len() > 0 && samples.last().time < cutoff {
                assert(kept[0] == before[0]);
                assert(fewer.contains(before[0]));
                let k = choose|k: int| 0 <= k < fewer.len() && fewer[k] == before[0];
                assert(samples[k].time <= samples[samples.len() - 1].time);
            }
        }
    }
}

/// A history in time, cut down to a window, is still in time, holds only samples of the
/// window, and ends as the whole history does.
pub proof fn law_recent(samples: Seq<Sample>, cutoff: u64)
    requires
        in_time(samples),
    ensures
        in_time(recent(samples, cutoff)),
        forall|s: Sample|
            recent(samples, cutoff).contains(s) <==> #[trigger] samples.contains(s) && s.time
                >= cutoff,
        recent(samples, cutoff).len() > 0 ==> recent(samples, cutoff).last() == samples.last(),
{
    lemma_recent(samples, cutoff);
    let kept = recent(samples, cutoff);
    assert forall|s: Sample| kept.contains(s) <==> #[trigger] samples.contains(s) && s.time
        >= cutoff by {
        let pred = |s: Sample| s.time >= cutoff;
        if samples.contains(s) && s.time >= cutoff {
            let i = choose|i: int| 0 <= i < samples.len() && samples[i] == s;
            samples.lemma_filter_contains(pred, i);
        }
        if kept.contains(s) {
            let i = choose|i: int| 0 <= i < kept.len() && kept[i] == s;
            assert(samples.contains(kept[i]));
        }
    }
}

/// Cutting down to a window leaves just the histories with enough recent samples, each with
/// all of these, in their order.
pub proof fn law_windowed(all: Seq<SeriesText>, cutoff: u64, least: nat, n: int)
    requires
        0 <= n <= all.len(),
    ensures
        windowed(all, cutoff, least, n).len() <= n,
        forall|i: int|
            0 <= i < windowed(all, cutoff, least, n).len() ==> {
                let kept = #[trigger] windowed(all, cutoff, least, n)[i];
                &&& kept.samples.len() >= least
                &&& exists|k: int|
                    i <= k < n && kept == (SeriesText {
                        label: (#[trigger] all[k]).label,
                        samples: recent(all[k].samples, cutoff),
                    })
            },
        forall|k: int|
            0 <= k < n && recent((#[trigger] all[k]).samples, cutoff).len() >= least
                ==> windowed(all, cutoff, least, n).contains(
                SeriesText { label: all[k].label, samples: recent(all[k].samples, cutoff) },
            ),
    decreases n,
{
    if n > 0 {
        let before = windowed(all, cutoff, least, n - 1);
        let after = windowed(all, cutoff, least, n);
        law_windowed(all, cutoff, least, n - 1);
        assert forall|i: int| 0 <= i < after.len() implies {
            let kept = #[trigger] after[i];
            &&& kept.samples.len() >= least
            &&& exists|k: int|
                i <= k < n && kept == (SeriesText {
                    label: (#[trigger] all[k]).label,
                    samples: recent(all[k].samples, cutoff),
                })
        } by {
            if i < before.len() {
                assert(after[i] == before[i]);
                let k = choose|k: int|
                    i <= k < n - 1 && before[i] == (SeriesText {
                        label: (#[trigger] all[k]).label,
                        samples: recent(all[k].samples, cutoff),
                    });
                assert(all[k].label == after[i].label);
            } else {
                assert(all[n - 1].label == after[i].label);
            }
        }
        assert forall|k: int|
            0 <= k < n && recent((#[trigger] all[k]).samples, cutoff).len()
                >= least implies after.contains(
            SeriesText { label: all[k].label, samples: recent(all[k].samples, cutoff) },
        ) by {
            let kept = SeriesText {
                label: all[k].label,
                samples: recent(all[k].samples, cutoff),
            };
            if k < n - 1 {
                assert(before.contains(kept));
                let i = choose|i: int| 0 <= i < before.len() && before[i] == kept;
                assert(after[i] == kept);
            } else {
                assert(after[before.len() as int] == kept);
            }
        }
    }
}

/// The histories that a verdict can be given on, cut down to their recent samples.
pub fn to_assess(all: &Vec<Series>, cutoff: u64) -> (r: Vec<Series>)
    ensures
        series_texts(r@) == windowed(
            series_texts(all@),
            cutoff,
            LEAST_ASSESSED as nat,
            all@.len() as int,
        ),
        forall|i: int| 0 <= i < r@.len() ==> (#[trigger] r@[i])@.samples.len() >= LEAST_ASSESSED,
{
    let r = in_window(all, cutoff, LEAST_ASSESSED);
    proof {
        let kept = series_texts(r@);
        law_windowed(series_texts(all@), cutoff, LEAST_ASSESSED as nat, all@.len() as int);
        assert forall|i: int| 0 <= i < r@.len() implies (#[trigger] r@[i])@.samples.len()
            >= LEAST_ASSESSED by {
            assert(kept[i] == r@[i]@);
        }
    }
    r
}

/// The histories that are charted, cut down to their recent samples.
pub fn to_chart(all: &Vec<Series>, cutoff: u64) -> (r: Vec<Series>)
    ensures
        series_texts(r@) == windowed(
            series_texts(all@),
            cutoff,
            LEAST_CHARTED as nat,
            all@.len() as int,
        ),
{
    in_window(all, cutoff, LEAST_CHARTED)
}

// ---- where each stored sum goes ------------------------------------------------------------

/// How many of the first `n` stored sums have the label.
pub open spec fn label_count(sums: Seq<SumText>, label: Seq<char>, n: int) -> nat
    decreases n,
{
    if n <= 0 {
        0
    } else {
        label_count(sums, label, n - 1) + if sums[n - 1].label == label {
            1nat
        } else {
            0nat
        }
    }
}

proof fn lemma_label_count(sums: Seq<SumText>, label: Seq<char>, n: int)
    requires
        0 <= n < sums.len(),
    ensures
        label_count(sums.drop_last(), label, n) == label_count(sums, label, n),
    decreases n,
{
    if n > 0 {
        lemma_label_count(sums, label, n - 1);
    }
}

proof fn lemma_sample_at(sums: Seq<SumText>, label: Seq<char>, k: int)
    requires
        0 <= k < sums.len(),
    ensures
        samples_of(sums, label).len() == label_count(sums, label, sums.len() as int),
        sums[k].label == label ==> {
            &&& label_count(sums, label, k) < samples_of(sums, label).len()
            &&& samples_of(sums, label)[label_count(sums, label, k) as int] == sample_of(sums[k])
        },
    decreases sums.len(),
{
    let fewer = sums.drop_last();
    let n = fewer.len() as int;
    lemma_label_count(sums, label, n);
    if n > 0 {
        let m = if k < n {
            k
        } else {
            0
        };
        lemma_sample_at(fewer, label, m);
        lemma_label_count(sums, label, k);
    } else {
        assert(samples_of(fewer, label).len() == 0);
        assert(label_count(sums, label, 0) == 0);
    }
}

/// Every stored sum is in the one history of its label, behind those of the label that were
/// stored before it, and nothing else is: with its time and its bytes, where a number below zero
/// counts as none.
pub proof fn law_every_sum_has_its_place(sums: Seq<SumText>, k: int) -> (i: int)
    requires
        0 <= k < sums.len(),
    ensures
        ({
            let label = sums[k].label;
            let series = grouped(sums)[i];
            let sample = series.samples[label_count(sums, label, k) as int];
            &&& 0 <= i < grouped(sums).len()
            &&& series.label == label
            &&& forall|j: int| 0 <= j < grouped(sums).len() && j != i ==> (
            #[trigger] grouped(sums)[j]).label != label
            &&& series.samples.len() == label_count(sums, label, sums.len() as int)
            &&& label_count(sums, label, k) < series.samples.len()
            &&& sample.time == sums[k].time
            &&& sums[k].rss >= 0 ==> sample.rss == sums[k].rss
            &&& sums[k].rss < 0 ==> sample.rss == 0
            &&& sums[k].vram >= 0 ==> sample.vram == sums[k].vram
            &&& sums[k].vram < 0 ==> sample.vram == 0
        }),
{
    law_grouped(sums);
    let label = sums[k].label;
    assert(has_label(sums, label));
    let i = choose|i: int| 0 <= i < grouped(sums).len() && (#[trigger] grouped(sums)[i]).label
        == label;
    lemma_sample_at(sums, label, k);
    assert forall|j: int| 0 <= j < grouped(sums).len() && j != i implies (
    #[trigger] grouped(sums)[j]).label != label by {
        if j < i {
            assert(grouped(sums)[j].label != grouped(sums)[i].label);
        } else {
            assert(grouped(sums)[i].label != grouped(sums)[j].label);
        }
    }
    i
}

/// How many of the first `n` samples are not older than `cutoff`.
pub open spec fn recent_count(samples: Seq<Sample>, cutoff: u64, n: int) -> nat
    decreases n,
{
    if n <= 0 {
        0
    } else {
        recent_count(samples, cutoff, n - 1) + if samples[n - 1].time >= cutoff {
            1nat
        } else {
            0nat
        }
    }
}

proof fn lemma_recent_count(samples: Seq<Sample>, cutoff: u64, n: int)
    requires
        0 <= n < samples.len(),
    ensures
        recent_count(samples.drop_last(), cutoff, n) == recent_count(samples, cutoff, n),
    decreases n,
{
    if n > 0 {
        lemma_recent_count(samples, cutoff, n - 1);
    }
}

/// Every sample that is not older than the cutoff is kept, as often as it is there and in its
/// place, and none that is older.
pub proof fn law_recent_keeps_all(samples: Seq<Sample>, cutoff: u64, k: int)
    requires
        0 <= k < samples.len(),
    ensures
        recent(samples, cutoff).len() == recent_count(samples, cutoff, samples.len() as int),
        samples[k].time >= cutoff ==> {
            &&& recent_count(samples, cutoff, k) < recent(samples, cutoff).len()
            &&& recent(samples, cutoff)[recent_count(samples, cutoff, k) as int] == samples[k]
        },
    decreases samples.len(),
{
    reveal(Seq::filter);
    let fewer = samples.drop_last();
    let n = fewer.len() as int;
    lemma_recent_count(samples, cutoff, n);
    if n > 0 {
        let m = if k < n {
            k
        } else {
            0
        };
        law_recent_keeps_all(fewer, cutoff, m);
        lemma_recent_count(samples, cutoff, k);
    } else {
        assert(recent(fewer, cutoff).len() == 0);
        assert(recent_count(samples, cutoff, 0) == 0);
    }
}

/// A verdict takes six recent samples and a chart two: of histories with labels of their own,
/// one is assessed, and one is charted, just where it has as many.
pub proof fn law_enough_samples(all: Seq<SeriesText>, cutoff: u64, k: int)
    requires
        0 <= k < all.len(),
        forall|i: int, j: int|
            0 <= i < j < all.len() ==> (#[trigger] all[i]).label != (#[trigger] all[j]).label,
    ensures
        ({
            let count = recent_count(all[k].samples, cutoff, all[k].samples.len() as int);
            let kept = SeriesText {
                label: all[k].label,
                samples: recent(all[k].samples, cutoff),
            };
            let n = all.len() as int;
            &&& windowed(all, cutoff, LEAST_ASSESSED as nat, n).contains(kept) <==> count >= 6
            &&& windowed(all, cutoff, LEAST_CHARTED as nat, n).contains(kept) <==> count >= 2
        }),
{
    lemma_enough(all, cutoff, 6, k);
    lemma_enough(all, cutoff, 2, k);
}

proof fn lemma_enough(all: Seq<SeriesText>, cutoff: u64, least: nat, k: int)
    requires
        0 <= k < all.len(),
        least > 0,
        forall|i: int, j: int|
            0 <= i < j < all.len() ==> (#[trigger] all[i]).label != (#[trigger] all[j]).label,
    ensures
        windowed(all, cutoff, least, all.len() as int).contains(
            SeriesText { label: all[k].label, samples: recent(all[k].samples, cutoff) },
        ) <==> recent_count(all[k].samples, cutoff, all[k].samples.len() as int) >= least,
{
    let n = all.len() as int;
    let kept = SeriesText { label: all[k].label, samples: recent(all[k].samples, cutoff) };
    let left = windowed(all, cutoff, least, n);
    law_windowed(all, cutoff, least, n);
    if all[k].samples.len() > 0 {
        law_recent_keeps_all(all[k].samples, cutoff, 0);
    } else {
        lemma_recent(all[k].samples, cutoff);
    }
    if left.contains(kept) {
        let i = choose|i: int| 0 <= i < left.len() && left[i] == kept;
        assert(left[i].samples.len() >= least);
    }
}

} // verus!
