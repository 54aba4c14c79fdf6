//! Which label leaks: the rule on trends, and the order in which verdicts are shown.
//!
//! A level is an integer that orders as the measured quantity does. Where a quantity may be
//! no number at all, it is optional: what is no number exceeds nothing.

use crate::order::lemma_insert_multiset;
use crate::watch::series::{series_texts, Series, SeriesText};
use vstd::prelude::*;

verus! {

/// The number of buckets in which the floor of a history is looked for.
pub const BUCKETS: usize = 8;

// ---- the floor -----------------------------------------------------------------------------

/// Whether a time is in a bucket: not before its start, and before its end.
pub open spec fn within(time: u64, bounds: (u64, u64)) -> bool {
    bounds.0 <= time < bounds.1
}

/// Of the first `n` samples, the one at the lowest level in a bucket, the first of them where
/// there are more.
pub open spec fn lowest(
    times: Seq<u64>,
    levels: Seq<u64>,
    bounds: (u64, u64),
    n: int,
) -> Option<int>
    decreases n,
{
    if n <= 0 {
        None
    } else {
        let best = lowest(times, levels, bounds, n - 1);
        if within(times[n - 1], bounds) && (best matches Some(b) ==> levels[n - 1] < levels[b]) {
            Some(n - 1)
        } else {
            best
        }
    }
}

/// Where a bucket holds a sample, the one that is picked is in it, no sample of the bucket is
/// lower, and every earlier one is higher. Where it holds none, none is picked.
pub proof fn law_lowest(times: Seq<u64>, levels: Seq<u64>, bounds: (u64, u64), n: int)
    requires
        0 <= n <= times.len(),
        levels.len() == times.len(),
    ensures
        lowest(times, levels, bounds, n) is Some <==> exists|k: int|
            0 <= k < n && within(#[trigger] times[k], bounds),
        lowest(times, levels, bounds, n) matches Some(i) ==> {
            &&& 0 <= i < n
            &&& within(times[i], bounds)
            &&& forall|k: int|
                0 <= k < n && within(#[trigger] times[k], bounds) ==> levels[i] <= levels[k] && (k
                    < i ==> levels[i] < levels[k])
        },
    decreases n,
{
    if n > 0 {
        law_lowest(times, levels, bounds, n - 1);
        if within(times[n - 1], bounds) {
            assert(0 <= n - 1 < n && within(times[n - 1], bounds));
        }
    }
}

/// The samples that make the floor: the lowest one of each of the first `n` buckets that
/// holds any.
pub open spec fn floor_of(
    times: Seq<u64>,
    levels: Seq<u64>,
    buckets: Seq<(u64, u64)>,
    n: int,
) -> Seq<usize>
    decreases n,
{
    if n <= 0 {
        seq![]
    } else {
        let before = floor_of(times, levels, buckets, n - 1);
        match lowest(times, levels, buckets[n - 1], times.len() as int) {
            Some(i) => before.push(i as usize),
            None => before,
        }
    }
}

/// Whether a history is long enough for a floor: two samples for each bucket, over some time.
pub open spec fn has_floor(times: Seq<u64>) -> bool {
    times.len() >= 2 * BUCKETS && times[0] < times.last()
}

fn find_lowest(times: &Vec<u64>, levels: &Vec<u64>, bounds: (u64, u64)) -> (r: Option<usize>)
    requires
        levels@.len() == times@.len(),
    ensures
        match r {
            Some(i) => lowest(times@, levels@, bounds, times@.len() as int) == Some(i as int),
            None => lowest(times@, levels@, bounds, times@.len() as int) is None,
        },
{
    let mut best: Option<usize> = None;
    let mut n: usize = 0;
    while n < times.len()
        invariant
            n <= times@.len(),
            levels@.len() == times@.len(),
            match best {
                Some(b) => b < n && lowest(times@, levels@, bounds, n as int) == Some(b as int),
                None => lowest(times@, levels@, bounds, n as int) is None,
            },
        decreases times@.len() - n,
    {
        let lower = match best {
            Some(b) => levels[n] < levels[b],
            None => true,
        };
        if bounds.0 <= times[n] && times[n] < bounds.1 && lower {
            best = Some(n);
        }
        n = n + 1;
    }
    best
}

/// Picks the samples that make the floor: in each bucket that holds any, the first one at the
/// lowest level. `None` if the history is too short.
pub fn floor_points(times: &Vec<u64>, levels: &Vec<u64>, buckets: &Vec<(u64, u64)>) -> (r: Option<
    Vec<usize>,
>)
    requires
        levels@.len() == times@.len(),
    ensures
        r is Some <==> has_floor(times@),
        r matches Some(points) ==> points@ == floor_of(
            times@,
            levels@,
            buckets@,
            buckets@.len() as int,
        ),
{
    let count: usize = times.len();
    if count < 2 * BUCKETS || times[0] >= times[count - 1] {
        return None;
    }
    let mut points: Vec<usize> = Vec::new();
    let mut i: usize = 0;
    while i < buckets.len()
        invariant
            i <= buckets@.len(),
            levels@.len() == times@.len(),
            points@ == floor_of(times@, levels@, buckets@, i as int),
        decreases buckets@.len() - i,
    {
        match find_lowest(times, levels, buckets[i]) {
            Some(k) => points.push(k),
            None => {},
        }
        i = i + 1;
    }
    Some(points)
}

// ---- the rule ------------------------------------------------------------------------------

/// The trends of a history: how fast the level and its floor rise, in the machine and on
/// graphics devices.
#[derive(Debug, Clone, Copy)]
pub struct Trends {
    pub rss_slope: Option<u64>,
    pub rss_floor: Option<u64>,
    pub vram_slope: Option<u64>,
    pub vram_floor: Option<u64>,
}

/// Whether one level is above another.
pub open spec fn exceeds(a: Option<u64>, b: Option<u64>) -> bool {
    match (a, b) {
        (Some(a), Some(b)) => a > b,
        _ => false,
    }
}

/// Whether the floor rises faster than the limit and the level faster than half of it.
pub open spec fn rises(
    floor: Option<u64>,
    slope: Option<u64>,
    limit: Option<u64>,
    half: Option<u64>,
) -> bool {
    exceeds(floor, limit) && exceeds(slope, half)
}

/// What leaks, in words.
pub open spec fn kind_of(rss: bool, vram: bool) -> Seq<char> {
    (if vram {
        "VRAM"@
    } else {
        seq![]
    }) + (if rss && vram {
        seq!['+']
    } else {
        seq![]
    }) + (if rss {
        "RSS"@
    } else {
        seq![]
    })
}

/// The verdict on a history: the history that it is on, by its place among those assessed,
/// how many samples it rests on, the last of them, and what leaks, if anything does.
#[derive(Debug)]
pub struct Verdict {
    pub label: String,
    pub place: usize,
    pub samples: usize,
    pub rss_last: u64,
    pub vram_last: u64,
    pub trends: Trends,
    pub leak: bool,
    pub leak_kind: String,
}

/// What a verdict says.
#[verifier::ext_equal]
pub struct VerdictText {
    pub label: Seq<char>,
    pub place: nat,
    pub samples: nat,
    pub rss_last: u64,
    pub vram_last: u64,
    pub trends: Trends,
    pub leak: bool,
    pub leak_kind: Seq<char>,
}

impl View for Verdict {
    type V = VerdictText;

    open spec fn view(&self) -> VerdictText {
        VerdictText {
            label: self.label@,
            place: self.place as nat,
            samples: self.samples as nat,
            rss_last: self.rss_last,
            vram_last: self.vram_last,
            trends: self.trends,
            leak: self.leak,
            leak_kind: self.leak_kind@,
        }
    }
}

/// What verdicts say.
pub open spec fn verdict_texts(s: Seq<Verdict>) -> Seq<VerdictText> {
    Seq::new(s.len(), |i: int| s[i]@)
}

/// The verdict on a history with the given trends.
pub open spec fn judged(
    s: SeriesText,
    place: nat,
    t: Trends,
    limit: Option<u64>,
    half: Option<u64>,
) -> VerdictText {
    let rss = rises(t.rss_floor, t.rss_slope, limit, half);
    let vram = rises(t.vram_floor, t.vram_slope, limit, half);
    VerdictText {
        label: s.label,
        place,
        samples: s.samples.len(),
        rss_last: s.samples.last().rss,
        vram_last: s.samples.last().vram,
        trends: t,
        leak: rss || vram,
        leak_kind: kind_of(rss, vram),
    }
}

/// The verdicts on the first `n` histories.
pub open spec fn all_judged(
    all: Seq<SeriesText>,
    trends: Seq<Trends>,
    limit: Option<u64>,
    half: Option<u64>,
    n: int,
) -> Seq<VerdictText> {
    Seq::new(n as nat, |i: int| judged(all[i], i as nat, trends[i], limit, half))
}

/// A history leaks in just the ways that its verdict names: the name is empty where nothing
/// leaks.
pub proof fn law_kind_names_the_leak(
    s: SeriesText,
    place: nat,
    t: Trends,
    limit: Option<u64>,
    half: Option<u64>,
)
    ensures
        judged(s, place, t, limit, half).leak <==> judged(s, place, t, limit, half).leak_kind.len()
            > 0,
        judged(s, place, t, limit, half).leak <==> {
            ||| exceeds(t.rss_floor, limit) && exceeds(t.rss_slope, half)
            ||| exceeds(t.vram_floor, limit) && exceeds(t.vram_slope, half)
        },
{
    reveal_strlit("VRAM");
    reveal_strlit("RSS");
}

/// A steeper history is not acquitted where a flatter one is found to leak, and a lower limit
/// acquits none that a higher one convicts.
pub proof fn law_rises_is_monotone(
    floor: u64,
    slope: u64,
    limit: u64,
    half: u64,
    steeper_floor: u64,
    steeper_slope: u64,
    lower_limit: u64,
    lower_half: u64,
)
    requires
        rises(Some(floor), Some(slope), Some(limit), Some(half)),
        steeper_floor >= floor,
        steeper_slope >= slope,
        lower_limit <= limit,
        lower_half <= half,
    ensures
        rises(Some(steeper_floor), Some(steeper_slope), Some(lower_limit), Some(lower_half)),
{
}

fn is_above(a: Option<u64>, b: Option<u64>) -> (r: bool)
    ensures
        r == exceeds(a, b),
{
    match (a, b) {
        (Some(a), Some(b)) => a > b,
        _ => false,
    }
}

/// The verdict on a history that has a sample.
pub fn judge(
    s: &Series,
    place: usize,
    t: Trends,
    limit: Option<u64>,
    half: Option<u64>,
) -> (r: Verdict)
    requires
        s@.samples.len() > 0,
    ensures
        r@ == judged(s@, place as nat, t, limit, half),
{
    let rss = is_above(t.rss_floor, limit) && is_above(t.rss_slope, half);
    let vram = is_above(t.vram_floor, limit) && is_above(t.vram_slope, half);
    let mut leak_kind = String::new();
    if vram {
        leak_kind.append("VRAM");
    }
    if rss && vram {
        leak_kind.push('+');
    }
    if rss {
        leak_kind.append("RSS");
    }
    assert(leak_kind@ =~= kind_of(rss, vram));
    let last = s.samples[s.samples.len() - 1];
    Verdict {
        label: s.label.clone(),
        place,
        samples: s.samples.len(),
        rss_last: last.rss,
        vram_last: last.vram,
        trends: t,
        leak: rss || vram,
        leak_kind,
    }
}

// ---- the order -----------------------------------------------------------------------------

/// The higher of two levels; the other one where one is no number.
pub open spec fn higher(a: Option<u64>, b: Option<u64>) -> Option<u64> {
    match (a, b) {
        (Some(x), Some(y)) => if x >= y {
            a
        } else {
            b
        },
        (Some(_), None) => a,
        (None, _) => b,
    }
}

/// By what a verdict is ranked: its faster floor.
pub open spec fn score(t: Trends) -> Option<u64> {
    higher(t.rss_floor, t.vram_floor)
}

/// Where a verdict of the given score goes from `i` on: before the first one that it exceeds.
pub open spec fn rank_at(all: Seq<VerdictText>, score_of: Option<u64>, i: int) -> int
    decreases all.len() - i,
{
    if i >= all.len() {
        all.len() as int
    } else if exceeds(score_of, score(all[i].trends)) {
        i
    } else {
        rank_at(all, score_of, i + 1)
    }
}

/// The verdicts with the fastest rising floor first, those that rise alike in their old order.
pub open spec fn ranked(all: Seq<VerdictText>) -> Seq<VerdictText>
    decreases all.len(),
{
    if all.len() == 0 {
        seq![]
    } else {
        let before = ranked(all.drop_last());
        before.insert(rank_at(before, score(all.last().trends), 0), all.last())
    }
}

/// Whether a verdict comes before another one: its floor rises faster, or as fast and it was
/// placed before.
pub open spec fn goes_before(a: VerdictText, b: VerdictText) -> bool {
    exceeds(score(a.trends), score(b.trends)) || score(a.trends) == score(b.trends) && a.place
        < b.place
}

/// Whether all verdicts can be ranked and stand in their places.
pub open spec fn placed(all: Seq<VerdictText>) -> bool {
    forall|i: int|
        0 <= i < all.len() ==> (#[trigger] all[i]).place == i && score(all[i].trends) is Some
}

proof fn lemma_rank_at(all: Seq<VerdictText>, score_of: Option<u64>, i: int)
    requires
        0 <= i <= all.len(),
    ensures
        i <= rank_at(all, score_of, i) <= all.len(),
        forall|k: int|
            i <= k < rank_at(all, score_of, i) ==> !exceeds(
                score_of,
                score((#[trigger] all[k]).trends),
            ),
        rank_at(all, score_of, i) < all.len() ==> exceeds(
            score_of,
            score(all[rank_at(all, score_of, i)].trends),
        ),
    decreases all.len() - i,
{
    if i < all.len() && !exceeds(score_of, score(all[i].trends)) {
        lemma_rank_at(all, score_of, i + 1);
    }
}

/// Ranking keeps every verdict, and puts the one whose floor rises faster first; those that
/// rise alike keep their order.
pub proof fn law_ranked(all: Seq<VerdictText>)
    requires
        placed(all),
    ensures
        ranked(all).len() == all.len(),
        ranked(all).to_multiset() == all.to_multiset(),
        forall|i: int, j: int|
            0 <= i < j < ranked(all).len() ==> goes_before(
                #[trigger] ranked(all)[i],
                #[trigger] ranked(all)[j],
            ),
    decreases all.len(),
{
    if all.len() > 0 {
        let fewer = all.drop_last();
        let v = all.last();
        let before = ranked(fewer);
        let s = score(v.trends);
        assert(all[all.len() - 1] == v);
        assert(forall|i: int| 0 <= i < fewer.len() ==> #[trigger] fewer[i] == all[i]);
        law_ranked(fewer);
        lemma_rank_at(before, s, 0);
        let at = rank_at(before, s, 0);
        let after = before.insert(at, v);
        lemma_insert_multiset(before, at, v);
        assert(fewer.push(v) =~= all);
        fewer.to_multiset_ensures();
        before.to_multiset_ensures();
        assert forall|i: int| 0 <= i < before.len() implies (#[trigger] before[i]).place < v.place
            && score(before[i].trends) is Some by {
            assert(before.contains(before[i]));
            assert(before.to_multiset().count(before[i]) > 0);
            assert(fewer.to_multiset().count(before[i]) > 0);
            assert(fewer.contains(before[i]));
            let k = choose|k: int| 0 <= k < fewer.len() && fewer[k] == before[i];
            assert(all[k].place == k);
        }
        assert forall|i: int, j: int| 0 <= i < j < after.len() implies goes_before(
            #[trigger] after[i],
            #[trigger] after[j],
        ) by {
            if i < at {
                assert(after[i] == before[i]);
            } else if i > at {
                assert(after[i] == before[i - 1]);
            }
            if j < at {
                assert(after[j] == before[j]);
            } else if j > at {
                assert(after[j] == before[j - 1]);
            }
            if i == at && j - 1 > at {
                assert(goes_before(before[at], before[j - 1]));
            }
        }
    } else {
        assert(ranked(all) =~= all);
    }
}

fn is_higher_score(a: &Trends, b: &Trends) -> (r: bool)
    ensures
        r == exceeds(score(*a), score(*b)),
{
    is_above(higher_of(a.rss_floor, a.vram_floor), higher_of(b.rss_floor, b.vram_floor))
}

fn higher_of(a: Option<u64>, b: Option<u64>) -> (r: Option<u64>)
    ensures
        r == higher(a, b),
{
    match (a, b) {
        (Some(x), Some(y)) => if x >= y {
            a
        } else {
            b
        },
        (Some(_), None) => a,
        (None, _) => b,
    }
}

/// Whether the histories can be ranked by their trends: there is no more than one, or each
/// has a floor that is a number.
pub open spec fn rankable(trends: Seq<Trends>) -> bool {
    trends.len() > 1 ==> forall|i: int|
        0 <= i < trends.len() ==> score(#[trigger] trends[i]) is Some
}

/// Whether the histories can be ranked by their trends.
pub fn can_rank(trends: &Vec<Trends>) -> (r: bool)
    ensures
        r == rankable(trends@),
{
    if trends.len() <= 1 {
        return true;
    }
    let mut i: usize = 0;
    while i < trends.len()
        invariant
            i <= trends@.len(),
            trends@.len() > 1,
            forall|k: int| 0 <= k < i ==> score(#[trigger] trends@[k]) is Some,
        decreases trends@.len() - i,
    {
        if higher_of(trends[i].rss_floor, trends[i].vram_floor).is_none() {
            assert(score(trends@[i as int]) is None);
            return false;
        }
        i = i + 1;
    }
    true
}

/// The verdicts on histories with the given trends, the fastest rising floor first. Every
/// history has a sample, and they can be ranked.
pub fn assess(
    all: &Vec<Series>,
    trends: &Vec<Trends>,
    limit: Option<u64>,
    half: Option<u64>,
) -> (r: Vec<Verdict>)
    requires
        trends@.len() == all@.len(),
        rankable(trends@),
        forall|i: int| 0 <= i < all@.len() ==> (#[trigger] all@[i])@.samples.len() > 0,
    ensures
        verdict_texts(r@) == ranked(
            all_judged(series_texts(all@), trends@, limit, half, all@.len() as int),
        ),
{
    let ghost texts = series_texts(all@);
    let mut r: Vec<Verdict> = Vec::new();
    let mut n: usize = 0;
    assert(verdict_texts(r@) =~= ranked(all_judged(texts, trends@, limit, half, 0)));
    while n < all.len()
        invariant
            n <= all@.len(),
            trends@.len() == all@.len(),
            texts == series_texts(all@),
            forall|i: int| 0 <= i < all@.len() ==> (#[trigger] all@[i])@.samples.len() > 0,
            verdict_texts(r@) == ranked(all_judged(texts, trends@, limit, half, n as int)),
        decreases all@.len() - n,
    {
        let ghost before = verdict_texts(r@);
        assert(texts[n as int] == all@[n as int]@);
        let v = judge(&all[n], n, trends[n], limit, half);
        let ghost s = score(trends@[n as int]);
        let mut i: usize = 0;
        while i < r.len() && !is_higher_score(&v.trends, &r[i].trends)
            invariant
                i <= r@.len(),
                before == verdict_texts(r@),
                s == score(v.trends),
                rank_at(before, s, 0) == rank_at(before, s, i as int),
            decreases r@.len() - i,
        {
            assert(before[i as int].trends == r@[i as int].trends);
            i = i + 1;
        }
        proof {
            if i < r@.len() {
                assert(before[i as int].trends == r@[i as int].trends);
            }
            let now = all_judged(texts, trends@, limit, half, n + 1);
            assert(now.drop_last() =~= all_judged(texts, trends@, limit, half, n as int));
            assert(now.last() == v@);
        }
        let ghost said = v@;
        r.insert(i, v);
        assert(verdict_texts(r@) =~= before.insert(i as int, said));
        n = n + 1;
    }
    r
}

// ---- what the floor and the verdicts are for -----------------------------------------------

/// Whether a bucket holds a sample.
pub open spec fn holds_sample(times: Seq<u64>, bucket: (u64, u64)) -> bool {
    exists|i: int| 0 <= i < times.len() && bucket.0 <= #[trigger] times[i] < bucket.1
}

/// How many of the first `n` buckets hold a sample.
pub open spec fn held_buckets(times: Seq<u64>, buckets: Seq<(u64, u64)>, n: int) -> nat
    decreases n,
{
    if n <= 0 {
        0
    } else {
        held_buckets(times, buckets, n - 1) + if holds_sample(times, buckets[n - 1]) {
            1nat
        } else {
            0nat
        }
    }
}

/// The floor takes every bucket that holds a sample, in order, and one sample of each: there are
/// as many points as such buckets, and the point of a bucket lies in it, no sample in the bucket
/// is lower, and every earlier one in it is higher.
pub proof fn law_floor_takes_every_bucket(
    times: Seq<u64>,
    levels: Seq<u64>,
    buckets: Seq<(u64, u64)>,
    n: int,
)
    requires
        times.len() == levels.len(),
        times.len() <= usize::MAX,
        0 <= n <= buckets.len(),
    ensures
        floor_of(times, levels, buckets, n).len() == held_buckets(times, buckets, n),
        forall|b: int|
            0 <= b < n && holds_sample(times, #[trigger] buckets[b]) ==> {
                let at = held_buckets(times, buckets, b) as int;
                let p = floor_of(times, levels, buckets, n)[at] as int;
                &&& at < floor_of(times, levels, buckets, n).len()
                &&& 0 <= p < times.len()
                &&& buckets[b].0 <= times[p] < buckets[b].1
                &&& forall|i: int|
                    0 <= i < times.len() && buckets[b].0 <= #[trigger] times[i] < buckets[b].1
                        ==> levels[p] <= levels[i] && (i < p ==> levels[p] < levels[i])
            },
    decreases n,
{
    if n > 0 {
        law_floor_takes_every_bucket(times, levels, buckets, n - 1);
        let bucket = buckets[n - 1];
        let count = times.len() as int;
        law_lowest(times, levels, bucket, count);
        let best = lowest(times, levels, bucket, count);
        let before = floor_of(times, levels, buckets, n - 1);
        let now = floor_of(times, levels, buckets, n);
        if holds_sample(times, bucket) {
            let i = choose|i: int| 0 <= i < times.len() && bucket.0 <= #[trigger] times[i] < bucket.1;
            assert(within(times[i], bucket));
        }
        assert(best is Some <==> holds_sample(times, bucket));
        assert(forall|k: int| 0 <= k < before.len() ==> before[k] == #[trigger] now[k]);
        assert forall|b: int| 0 <= b < n && holds_sample(times, #[trigger] buckets[b]) implies {
            let at = held_buckets(times, buckets, b) as int;
            let p = now[at] as int;
            &&& at < now.len()
            &&& 0 <= p < times.len()
            &&& buckets[b].0 <= times[p] < buckets[b].1
            &&& forall|i: int|
                0 <= i < times.len() && buckets[b].0 <= #[trigger] times[i] < buckets[b].1
                    ==> levels[p] <= levels[i] && (i < p ==> levels[p] < levels[i])
        } by {
            let at = held_buckets(times, buckets, b) as int;
            if b < n - 1 {
                assert(now[at] == before[at]);
            } else {
                assert(now[at] == best->0 as usize);
                let p = best->0;
                assert forall|i: int|
                    0 <= i < times.len() && bucket.0 <= #[trigger] times[i]
                        < bucket.1 implies levels[p] <= levels[i] && (i < p ==> levels[p]
                    < levels[i]) by {
                    assert(within(times[i], bucket));
                }
            }
        }
    }
}

/// A history has a floor just where it holds sixteen samples and takes some time.
pub proof fn law_has_floor(times: Seq<u64>)
    ensures
        has_floor(times) <==> times.len() >= 16 && times[0] < times[times.len() - 1],
{
}

/// What a verdict says, told by the numbers: the label, the number of samples and the last of
/// them are those of the history; there is a leak where, in the machine or on a device, the
/// floor rises faster than the limit and the level faster than half of it, and what leaks is
/// named.
pub proof fn law_judged(
    s: SeriesText,
    place: nat,
    t: Trends,
    limit: Option<u64>,
    half: Option<u64>,
)
    requires
        s.samples.len() > 0,
    ensures
        ({
            let v = judged(s, place, t, limit, half);
            let above = |x: Option<u64>, y: Option<u64>| x is Some && y is Some && x->0 > y->0;
            let rss = above(t.rss_floor, limit) && above(t.rss_slope, half);
            let vram = above(t.vram_floor, limit) && above(t.vram_slope, half);
            &&& v.label == s.label
            &&& v.place == place
            &&& v.samples == s.samples.len()
            &&& v.rss_last == s.samples[s.samples.len() - 1].rss
            &&& v.vram_last == s.samples[s.samples.len() - 1].vram
            &&& v.trends == t
            &&& v.leak == (rss || vram)
            &&& rss && vram ==> v.leak_kind =~= "VRAM+RSS"@
            &&& rss && !vram ==> v.leak_kind =~= "RSS"@
            &&& !rss && vram ==> v.leak_kind =~= "VRAM"@
            &&& !rss && !vram ==> v.leak_kind =~= ""@
        }),
{
    reveal_strlit("VRAM+RSS");
    reveal_strlit("VRAM");
    reveal_strlit("RSS");
    reveal_strlit("");
}

/// The faster of the two floors of a history, as a number; where one is no number, the other.
pub open spec fn faster_floor(t: Trends) -> int {
    if t.rss_floor is None {
        t.vram_floor->0 as int
    } else if t.vram_floor is None || t.rss_floor->0 > t.vram_floor->0 {
        t.rss_floor->0 as int
    } else {
        t.vram_floor->0 as int
    }
}

/// Every history gets one verdict; the verdicts stand by how fast the faster floor rises, the
/// fastest first, and in the order of the histories where they rise alike.
pub proof fn law_assessed(
    all: Seq<SeriesText>,
    trends: Seq<Trends>,
    limit: Option<u64>,
    half: Option<u64>,
)
    requires
        all.len() == trends.len(),
        forall|i: int|
            0 <= i < trends.len() ==> (#[trigger] trends[i]).rss_floor is Some
                || trends[i].vram_floor is Some,
    ensures
        ({
            let r = ranked(all_judged(all, trends, limit, half, all.len() as int));
            &&& r.len() == all.len()
            &&& forall|i: int|
                0 <= i < all.len() ==> r.contains(
                    judged(#[trigger] all[i], i as nat, trends[i], limit, half),
                )
            &&& forall|a: int, b: int|
                0 <= a < b < r.len() ==> {
                    let x = faster_floor((#[trigger] r[a]).trends);
                    let y = faster_floor((#[trigger] r[b]).trends);
                    x > y || x == y && r[a].place < r[b].place
                }
        }),
{
    let judgements = all_judged(all, trends, limit, half, all.len() as int);
    let r = ranked(judgements);
    assert forall|i: int| 0 <= i < judgements.len() implies (#[trigger] judgements[i]).place == i
        && score(judgements[i].trends) is Some by {
        assert(trends[i].rss_floor is Some || trends[i].vram_floor is Some);
    }
    law_ranked(judgements);
    judgements.to_multiset_ensures();
    r.to_multiset_ensures();
    assert forall|i: int| 0 <= i < all.len() implies r.contains(
        judged(#[trigger] all[i], i as nat, trends[i], limit, half),
    ) by {
        let v = judged(all[i], i as nat, trends[i], limit, half);
        assert(judgements[i] == v);
        assert(judgements.contains(v));
        assert(judgements.to_multiset().count(v) > 0);
        assert(r.to_multiset().count(v) > 0);
    }
    assert forall|a: int| 0 <= a < r.len() implies (#[trigger] r[a]).trends.rss_floor is Some
        || r[a].trends.vram_floor is Some by {
        assert(r.contains(r[a]));
        assert(r.to_multiset().count(r[a]) > 0);
        assert(judgements.to_multiset().count(r[a]) > 0);
        assert(judgements.contains(r[a]));
        let k = choose|k: int| 0 <= k < judgements.len() && judgements[k] == r[a];
        assert(trends[k].rss_floor is Some || trends[k].vram_floor is Some);
    }
    assert forall|a: int, b: int| 0 <= a < b < r.len() implies {
        let x = faster_floor((#[trigger] r[a]).trends);
        let y = faster_floor((#[trigger] r[b]).trends);
        x > y || x == y && r[a].place < r[b].place
    } by {
        assert(goes_before(r[a], r[b]));
        assert(r[a].trends.rss_floor is Some || r[a].trends.vram_floor is Some);
        assert(r[b].trends.rss_floor is Some || r[b].trends.vram_floor is Some);
    }
}

/// Histories can be ranked just where there is at most one, or each has a floor that is a
/// number.
pub proof fn law_rankable(trends: Seq<Trends>)
    ensures
        rankable(trends) <==> trends.len() <= 1 || forall|i: int|
            0 <= i < trends.len() ==> (#[trigger] trends[i]).rss_floor is Some
                || trends[i].vram_floor is Some,
{
    assert forall|i: int| 0 <= i < trends.len() implies (score(#[trigger] trends[i]) is Some <==> (
    trends[i].rss_floor is Some || trends[i].vram_floor is Some)) by {}
}

/// A history that is assessed alone gets its verdict, whatever its trends are.
pub proof fn law_one_assessed(
    s: SeriesText,
    t: Trends,
    limit: Option<u64>,
    half: Option<u64>,
)
    ensures
        ranked(all_judged(seq![s], seq![t], limit, half, 1)) == seq![judged(s, 0, t, limit, half)],
{
    let all = all_judged(seq![s], seq![t], limit, half, 1);
    reveal_with_fuel(ranked, 2);
    assert(all.drop_last() =~= seq![]);
    assert(all.last() == judged(s, 0, t, limit, half));
    assert(ranked(all) =~= seq![judged(s, 0, t, limit, half)]);
}

} // verus!
