use leakwatch::watch::alerts::Alerts;
use leakwatch::watch::page::{
    exit_message, leak_message, log_line, log_line_at, page_meta, page_meta_at, render_html,
    start_message, window_label,
};
use leakwatch::watch::run::{next_step, PruneTimer, Step};
use leakwatch::watch::series::{
    in_window, series_by_label, to_assess, to_chart, Sample, SampleSum, Series,
};
use leakwatch::watch::verdict::{assess, can_rank, floor_points, judge, Trends, Verdict};

fn sum(label: &str, time: u64, rss: i64, vram: i64) -> SampleSum {
    SampleSum { label: label.to_string(), time, rss, vram }
}

fn history(label: &str, times: Vec<u64>) -> Series {
    let samples = times.iter().map(|t| Sample { time: *t, rss: 10 * t, vram: *t }).collect();
    Series { label: label.to_string(), samples }
}

fn trends(rss_slope: u64, rss_floor: u64, vram_slope: u64, vram_floor: u64) -> Trends {
    Trends {
        rss_slope: Some(rss_slope),
        rss_floor: Some(rss_floor),
        vram_slope: Some(vram_slope),
        vram_floor: Some(vram_floor),
    }
}

#[test]
fn samples_are_grouped_by_label() {
    let all = series_by_label(&vec![
        sum("w", 1, 5, 6),
        sum("m", 1, -3, 0),
        sum("w", 2, 7, -1),
        sum("m", 3, 4, i64::MIN),
    ]);
    assert_eq!(all.len(), 2);
    assert_eq!(all[0].label, "w");
    assert_eq!(
        all[0].samples,
        vec![Sample { time: 1, rss: 5, vram: 6 }, Sample { time: 2, rss: 7, vram: 0 }]
    );
    assert_eq!(all[1].label, "m");
    assert_eq!(
        all[1].samples,
        vec![Sample { time: 1, rss: 0, vram: 0 }, Sample { time: 3, rss: 4, vram: 0 }]
    );
    assert_eq!(series_by_label(&Vec::new()).len(), 0);
}

#[test]
fn only_recent_samples_count() {
    let all = vec![history("a", vec![1, 4, 5, 9]), history("b", vec![1, 2, 5]), history("c", Vec::new())];
    let kept = in_window(&all, 5, 2);
    assert_eq!(kept.len(), 1);
    assert_eq!(kept[0].label, "a");
    let times: Vec<u64> = kept[0].samples.iter().map(|s| s.time).collect();
    assert_eq!(times, vec![5, 9]);
    assert_eq!(in_window(&all, 5, 1).len(), 2);
    assert_eq!(in_window(&all, 100, 0).len(), 3);
}

#[test]
fn verdicts_take_more_samples_than_charts() {
    let all = vec![history("a", (0..7).collect()), history("b", (0..6).collect()), history("c", vec![0, 2])];
    let assessed = to_assess(&all, 1);
    assert_eq!(assessed.len(), 1);
    assert_eq!((assessed[0].label.as_str(), assessed[0].samples.len()), ("a", 6));
    let charted = to_chart(&all, 1);
    assert_eq!(charted.len(), 2);
    assert_eq!((charted[1].label.as_str(), charted[1].samples.len()), ("b", 5));
}

#[test]
fn the_floor_is_the_first_lowest_sample_of_each_bucket() {
    let times: Vec<u64> = (0..16).collect();
    let levels = vec![5, 3, 3, 9, 1, 0, 7, 7, 8, 8, 8, 2, 4, 4, 4, 4];
    let buckets = vec![(0, 4), (4, 8), (8, 8), (8, 15)];
    assert_eq!(floor_points(&times, &levels, &buckets), Some(vec![1, 5, 11]));
}

#[test]
fn a_short_history_has_no_floor() {
    let buckets = vec![(0, 100)];
    let few: Vec<u64> = (0..15).collect();
    assert_eq!(floor_points(&few, &few, &buckets), None);
    let still = vec![3; 16];
    assert_eq!(floor_points(&still, &still, &buckets), None);
    assert_eq!(floor_points(&Vec::new(), &Vec::new(), &buckets), None);
    let many: Vec<u64> = (0..16).collect();
    assert_eq!(floor_points(&many, &many, &buckets), Some(vec![0]));
}

fn verdict(t: Trends) -> Verdict {
    judge(&history("w", vec![1, 2]), 0, t, Some(10), Some(5))
}

#[test]
fn a_leak_takes_a_rising_floor_and_a_rising_level() {
    assert!(verdict(trends(6, 11, 0, 0)).leak);
    assert!(!verdict(trends(5, 11, 0, 0)).leak);
    assert!(!verdict(trends(6, 10, 0, 0)).leak);
    assert!(!verdict(trends(6, 0, 0, 11)).leak);
}

#[test]
fn what_leaks_is_named() {
    assert_eq!(verdict(trends(6, 11, 0, 0)).leak_kind, "RSS");
    assert_eq!(verdict(trends(0, 0, 6, 11)).leak_kind, "VRAM");
    assert_eq!(verdict(trends(6, 11, 6, 11)).leak_kind, "VRAM+RSS");
    assert_eq!(verdict(trends(0, 0, 0, 0)).leak_kind, "");
}

#[test]
fn a_verdict_tells_what_it_rests_on() {
    let v = verdict(trends(6, 11, 0, 0));
    assert_eq!(v.label, "w");
    assert_eq!((v.samples, v.rss_last, v.vram_last), (2, 20, 2));
}

#[test]
fn what_is_no_number_is_no_leak() {
    let t = trends(6, 11, 6, 11);
    assert!(!judge(&history("w", vec![1]), 0, t, None, None).leak);
    let mut odd = t;
    odd.rss_floor = None;
    odd.vram_slope = None;
    assert!(!verdict(odd).leak);
}

#[test]
fn the_fastest_rising_floor_comes_first() {
    let all = vec![
        history("a", vec![1]),
        history("b", vec![1]),
        history("c", vec![1]),
        history("d", vec![1]),
    ];
    let t = vec![trends(0, 3, 0, 1), trends(0, 2, 0, 9), trends(0, 1, 0, 3), trends(0, 9, 0, 0)];
    let order: Vec<(String, usize)> = assess(&all, &t, Some(10), Some(5))
        .iter()
        .map(|v| (v.label.clone(), v.place))
        .collect();
    assert_eq!(
        order,
        vec![
            ("b".to_string(), 1),
            ("d".to_string(), 3),
            ("a".to_string(), 0),
            ("c".to_string(), 2),
        ]
    );
}

#[test]
fn histories_that_cannot_be_ranked() {
    let nan = Trends { rss_slope: None, rss_floor: None, vram_slope: None, vram_floor: None };
    assert!(can_rank(&Vec::new()));
    assert!(can_rank(&vec![nan]));
    assert!(!can_rank(&vec![trends(0, 0, 0, 0), nan]));
    let mut half = nan;
    half.vram_floor = Some(1);
    assert!(can_rank(&vec![half, half]));
    assert_eq!(assess(&vec![history("a", vec![1])], &vec![nan], Some(1), Some(1)).len(), 1);
}

#[test]
fn a_leak_is_reported_once() {
    let mut alerts = Alerts::new();
    assert!(alerts.note("a", true));
    assert!(!alerts.note("a", true));
    assert!(alerts.note("b", true));
    assert!(!alerts.note("a", false));
    assert!(!alerts.note("b", true));
    assert!(alerts.note("a", true));
    assert!(!alerts.note("c", false));
    assert!(alerts.note("c", true));
}

#[test]
fn verdicts_are_noted_together() {
    let mut alerts = Alerts::new();
    let all = vec![verdict(trends(6, 11, 0, 0)), verdict(trends(0, 0, 0, 0)), verdict(trends(6, 11, 0, 0))];
    assert_eq!(alerts.note_all(&all), vec![0, 2]);
    assert_eq!(alerts.note_all(&all), vec![2]);
}

#[test]
fn a_window_in_words() {
    assert_eq!(window_label(60), "60m");
    assert_eq!(window_label(119), "119m");
    assert_eq!(window_label(120), "2h");
    assert_eq!(window_label(359), "5h");
    assert_eq!(window_label(0), "0m");
}

#[test]
fn messages_of_the_log() {
    assert_eq!(
        start_message(12, "python:w.py", 30, 360, Some(1)),
        "leakwatch start: root pid=12 (python:w.py) interval=30s window=6h gpus=yes(1)"
    );
    assert_eq!(
        leak_message("w", "2.0 MB", "0.0 B", "1.0 GB", "3.0 KB"),
        "LEAK FLAGGED  w  floor RSS +2.0 MB/hr, VRAM +0.0 B/hr  (now RSS 1.0 GB, VRAM 3.0 KB)"
    );
    assert_eq!(exit_message(7), "root pid 7 exited — stopping");
    assert_eq!(log_line_at("T", "stopped"), "T  stopped");
}

#[test]
fn a_line_of_the_log_starts_with_the_time() {
    let line = log_line("stopped");
    assert!(line.ends_with("  stopped"));
    let time = &line[..line.len() - "  stopped".len()];
    assert!(time.ends_with("+00:00"));
    assert_eq!(&time[10..11], "T");
    assert_eq!(&time[4..5], "-");
    assert_eq!(&time[13..14], ":");
}

#[test]
fn what_the_page_says_of_the_watch() {
    let meta = page_meta_at(3, "w", 5, 60, 4, "10:11:12".to_string());
    assert_eq!((meta.root_pid, meta.root_label.as_str(), meta.tree_count), (3, "w", 5));
    assert_eq!((meta.window_label.as_str(), meta.refresh, meta.updated.as_str()), ("60m", 10, "10:11:12"));
    let now = page_meta(3, "w", 5, 60, 30);
    assert_eq!(now.refresh, 30);
    assert_eq!(now.updated.len(), 8);
    assert_eq!(&now.updated[2..3], ":");
}

#[test]
fn the_page_is_filled_in() {
    assert_eq!(
        render_html("<a __REFRESH__>__PAYLOAD__|__REFRESH__", 15, "{\"x\":\"__REFRESH__\"}"),
        "<a 15>{\"x\":\"__REFRESH__\"}|15"
    );
}

#[test]
fn the_course_of_a_watch() {
    assert_eq!(next_step(true, true), Step::Sample);
    assert_eq!(next_step(true, false), Step::RootGone);
    assert_eq!(next_step(false, true), Step::Stop);
    assert_eq!(next_step(false, false), Step::Stop);
}

#[test]
fn old_samples_are_dropped_now_and_then() {
    let mut timer = PruneTimer::new(10);
    assert!(!timer.is_due(9, 19));
    assert!(timer.is_due(10, 20));
    assert!(!timer.is_due(19, 29));
    assert!(timer.is_due(25, 35));
    assert!(!timer.is_due(34, 44));
}
