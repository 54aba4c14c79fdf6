use leakwatch::watch::gpu::{gpu_count, gpu_label, gpu_ok, gpu_sample, DeviceReading};
use leakwatch::watch::process::{
    are_distinct, basename, collect_tree, find_process, find_root, is_own_ancestor, label_for,
    root_error, root_error_with, try_collect_tree, ProcessInfo, RootChoice,
};
use leakwatch::watch::sample::sample_rows;
use std::collections::HashMap;

fn process(pid: u32, parent: Option<u32>, cmd: &str) -> ProcessInfo {
    ProcessInfo {
        pid,
        parent,
        name: format!("name{pid}"),
        cmd: cmd.split_whitespace().map(|s| s.to_string()).collect(),
        memory: 100 * pid as u64,
    }
}

fn label(cmd: &str) -> String {
    label_for(&vec![process(1, None, cmd)], 1)
}

#[test]
fn the_last_part_of_a_path() {
    assert_eq!(basename("/usr/bin/python3"), "python3");
    assert_eq!(basename("C:\\tools\\x.exe"), "x.exe");
    assert_eq!(basename("plain"), "plain");
    assert_eq!(basename("dir/"), "");
    assert_eq!(basename(""), "");
}

#[test]
fn a_process_is_labelled_by_its_script() {
    assert_eq!(label("/usr/bin/python3 -u /srv/app/worker.py --n 3"), "python3:worker.py");
    assert_eq!(label("python manage.py runserver"), "python:manage.py");
    assert_eq!(label("node /srv/server.js"), "node:server.js");
    assert_eq!(label("sh -c /opt/run"), "sh:run");
}

#[test]
fn tokens_that_name_no_script() {
    assert_eq!(label("cat /dev/null /tmp/x -/a/b word"), "cat");
    assert_eq!(label("ls dir/ other"), "ls");
    assert_eq!(label("python /tmp/gen.py"), "python:gen.py");
    assert_eq!(label("x -a.py b/c"), "x:c");
}

#[test]
fn processes_without_a_command_line_or_gone() {
    assert_eq!(label(""), "name1");
    assert_eq!(label_for(&Vec::new(), 1), "gone");
}

fn family() -> Vec<ProcessInfo> {
    vec![
        process(4, Some(2), "a"),
        process(1, None, "b"),
        process(2, Some(1), "python w.py"),
        process(3, Some(1), "c"),
        process(9, Some(8), "d"),
        process(5, Some(4), "e"),
    ]
}

#[test]
fn a_tree_holds_all_descendants_after_their_parents() {
    let all = family();
    let tree = try_collect_tree(&all, 1).unwrap();
    assert_eq!(tree[0], 1);
    let mut sorted = tree.clone();
    sorted.sort();
    assert_eq!(sorted, vec![1, 2, 3, 4, 5]);
    for (i, pid) in tree.iter().enumerate().skip(1) {
        let parent = all[find_process(&all, *pid).unwrap()].parent.unwrap();
        assert!(tree[..i].contains(&parent));
    }
    assert_eq!(tree, collect_tree(&all, 1));
}

#[test]
fn the_tree_within_a_tree_is_part_of_it() {
    let all = family();
    let whole = try_collect_tree(&all, 1).unwrap();
    let part = try_collect_tree(&all, 2).unwrap();
    assert_eq!(part, vec![2, 4, 5]);
    for pid in part {
        assert!(whole.contains(&pid));
    }
}

#[test]
fn a_root_without_children_or_unknown_is_alone() {
    assert_eq!(try_collect_tree(&family(), 9), Some(vec![9]));
    assert_eq!(try_collect_tree(&Vec::new(), 7), Some(vec![7]));
    assert_eq!(try_collect_tree(&family(), 8), Some(vec![8, 9]));
}

#[test]
fn processes_that_form_no_tree() {
    let circle = vec![process(1, Some(3), ""), process(2, Some(1), ""), process(3, Some(2), "")];
    assert!(is_own_ancestor(&circle, 1));
    assert_eq!(try_collect_tree(&circle, 1), None);
    let own = vec![process(1, Some(1), "")];
    assert_eq!(try_collect_tree(&own, 1), None);
    let twice = vec![process(1, None, ""), process(1, None, "")];
    assert!(!are_distinct(&twice));
    assert_eq!(try_collect_tree(&twice, 1), None);
    assert!(!is_own_ancestor(&family(), 5));
}

#[test]
fn a_circle_elsewhere_does_no_harm() {
    let all = vec![process(1, None, ""), process(2, Some(1), ""), process(8, Some(9), ""), process(9, Some(8), "")];
    assert!(!is_own_ancestor(&all, 2));
    assert_eq!(try_collect_tree(&all, 1), Some(vec![1, 2]));
}

#[test]
fn the_root_by_its_number() {
    assert_eq!(find_root(&family(), Some(3), None, 99), RootChoice::Found(3));
    assert_eq!(find_root(&family(), Some(7), Some("w.py"), 99), RootChoice::NoSuchPid(7));
}

#[test]
fn the_root_by_its_command_line() {
    let all = vec![
        process(5, None, "leakwatch --match gunicorn"),
        process(6, None, "gunicorn app"),
        process(7, None, "gunicorn app"),
    ];
    assert_eq!(find_root(&all, None, Some("gunicorn"), 5), RootChoice::Found(6));
    assert_eq!(find_root(&all, None, Some("gunicorn app"), 6), RootChoice::Found(7));
    assert_eq!(find_root(&all, None, Some("apache"), 5), RootChoice::NoMatch);
    assert_eq!(find_root(&all, None, None, 5), RootChoice::NoTarget);
}

#[test]
fn what_is_said_without_a_root() {
    assert_eq!(root_error(RootChoice::Found(1), ""), None);
    assert_eq!(
        root_error(RootChoice::NoSuchPid(12), ""),
        Some("leakwatch: no process with pid 12".to_string())
    );
    assert_eq!(
        root_error(RootChoice::NoMatch, "a \"b\"\n"),
        Some("leakwatch: no process matching \"a \\\"b\\\"\\n\"".to_string())
    );
    assert_eq!(
        root_error_with(RootChoice::NoMatch, "Q"),
        Some("leakwatch: no process matching Q".to_string())
    );
    assert_eq!(
        root_error(RootChoice::NoTarget, ""),
        Some("leakwatch: pass --pid or --match".to_string())
    );
}

fn reading(index: u32, processes: Option<Vec<(u32, Option<u64>)>>) -> DeviceReading {
    DeviceReading { index, name: None, memory: None, processes }
}

#[test]
fn device_memory_is_added_up_by_process() {
    let mut first = reading(0, Some(vec![(4, Some(10)), (5, None), (4, Some(7)), (6, Some(0))]));
    first.name = Some("RTX".to_string());
    first.memory = Some((3, 8));
    let sample = gpu_sample(&vec![first, reading(2, Some(vec![(4, Some(1)), (7, Some(2))])), reading(3, None)]).unwrap();
    assert_eq!(sample.by_pid.len(), 2);
    assert_eq!(sample.by_pid.get(&4), Some(&18));
    assert_eq!(sample.by_pid.get(&7), Some(&2));
    assert_eq!(sample.devices.len(), 3);
    assert_eq!((sample.devices[0].name.as_str(), sample.devices[0].used, sample.devices[0].total), ("RTX", 3, 8));
    assert_eq!((sample.devices[1].name.as_str(), sample.devices[1].used, sample.devices[1].total), ("GPU2", 0, 0));
    assert_eq!(sample.devices[2].index, 3);
}

#[test]
fn device_memory_that_cannot_be_added_up() {
    let readings = vec![reading(0, Some(vec![(1, Some(u64::MAX))])), reading(1, Some(vec![(1, Some(1))]))];
    assert!(gpu_sample(&readings).is_none());
    let apart = vec![reading(0, Some(vec![(1, Some(u64::MAX)), (2, Some(1))]))];
    assert!(gpu_sample(&apart).is_some());
    assert_eq!(gpu_sample(&Vec::new()).unwrap().by_pid.len(), 0);
}

#[test]
fn devices_in_words() {
    assert_eq!(gpu_label(Some(2)), "yes(2)");
    assert_eq!(gpu_label(Some(0)), "none");
    assert_eq!(gpu_label(None), "none");
    assert!(gpu_ok(Some(1)) && !gpu_ok(Some(0)) && !gpu_ok(None));
    assert_eq!((gpu_count(Some(3)), gpu_count(None)), (3, 0));
}

#[test]
fn every_process_of_a_tree_is_sampled() {
    let all = family();
    let tree = try_collect_tree(&all, 2).unwrap();
    let mut vram: HashMap<u32, u64> = HashMap::new();
    vram.insert(4, 11);
    vram.insert(9, 12);
    let rows = sample_rows(&all, &tree, &vram);
    let got: Vec<(u32, String, u64, u64)> =
        rows.iter().map(|r| (r.pid, r.label.clone(), r.rss, r.vram)).collect();
    assert_eq!(
        got,
        vec![
            (2, "python:w.py".to_string(), 200, 0),
            (4, "a".to_string(), 400, 11),
            (5, "e".to_string(), 500, 0),
        ]
    );
}

#[test]
fn a_process_that_is_gone_is_not_sampled() {
    let rows = sample_rows(&family(), &vec![77, 3], &HashMap::new());
    assert_eq!(rows.len(), 1);
    assert_eq!(rows[0].pid, 3);
}
