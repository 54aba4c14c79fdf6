use leakwatch::pyleak::discovery::{
    is_skipped, select_py_files, spawns_at, try_detect_spawns, SpawnKind, SpawnMap, WalkEntry,
};
use leakwatch::pyleak::path::{file_stem, path_side, FilePath, PathPart, Side};

fn path(text: &str) -> FilePath {
    let mut parts = Vec::new();
    for (i, part) in text.split('/').enumerate() {
        if part.is_empty() && i == 0 {
            parts.push(PathPart::Root);
        } else if part == "." {
            parts.push(PathPart::Current);
        } else if part == ".." {
            parts.push(PathPart::Parent);
        } else {
            parts.push(PathPart::Name(part.as_bytes().to_vec()));
        }
    }
    FilePath { parts, text: text.to_string() }
}

fn file(text: &str, extension: Option<&str>) -> WalkEntry {
    WalkEntry { path: path(text), is_file: true, extension: extension.map(|e| e.to_string()) }
}

fn shown(files: &Vec<FilePath>) -> Vec<String> {
    files.iter().map(|f| f.text.clone()).collect()
}

#[test]
fn directories_that_are_not_entered() {
    for name in vec![".venv", "__pycache__", ".git"] {
        assert!(is_skipped(name, true), "{name}");
        assert!(!is_skipped(name, false), "{name}");
    }
    assert!(!is_skipped("src", true));
    assert!(!is_skipped("venv", true));
    assert!(!is_skipped("node_modules", true));
}

#[test]
fn python_files_are_selected_in_the_order_of_their_paths() {
    let mut entries = vec![
        file("p/b.py", Some("py")),
        file("p/a.txt", Some("txt")),
        file("p/a/z.py", Some("py")),
        file("p/Makefile", None),
        file("p/a.py", Some("py")),
        file("p/b.py", Some("py")),
    ];
    entries.push(WalkEntry {
        path: path("p/d.py"),
        is_file: false,
        extension: Some("py".to_string()),
    });
    assert_eq!(shown(&select_py_files(&entries, None)), vec!["p/a/z.py", "p/a.py", "p/b.py"]);
}

#[test]
fn the_file_that_was_named_is_always_selected() {
    let entries = vec![file("p/b.py", Some("py"))];
    let script = path("p/a.script");
    assert_eq!(shown(&select_py_files(&entries, Some(&script))), vec!["p/a.script", "p/b.py"]);
    let listed = path("p/b.py");
    assert_eq!(shown(&select_py_files(&entries, Some(&listed))), vec!["p/b.py"]);
}

#[test]
fn paths_are_ordered_by_their_parts() {
    let texts = vec!["/x", ".", "..", "a", "a/b", "a b", "a.py", "b", "./a", "../a", "é"];
    for a in &texts {
        for b in &texts {
            let side = path_side(&path(a), &path(b));
            let (left, right) = (std::path::PathBuf::from(a), std::path::PathBuf::from(b));
            if left < right {
                assert_eq!(side, Side::Before, "{a} {b}");
            } else if left == right {
                assert_eq!(side, Side::Same, "{a} {b}");
            } else {
                assert_eq!(side, Side::After, "{a} {b}");
            }
        }
    }
}

#[test]
fn the_stem_of_a_path_is_that_of_std() {
    for text in vec!["a.py", "p/a.b.py", ".hidden", "p/.a.b", "noext", "a.", "..a", "p/..", ".", "/"] {
        let ours = if text == "/" {
            file_stem(&FilePath { parts: vec![PathPart::Root], text: text.to_string() })
        } else {
            file_stem(&path(text))
        };
        let std = std::path::Path::new(text).file_stem().map(|s| s.as_encoded_bytes().to_vec());
        assert_eq!(ours, std, "{text}");
    }
    assert_eq!(file_stem(&FilePath { parts: Vec::new(), text: String::new() }), None);
}

#[test]
fn each_kind_of_spawn_is_detected() {
    let lines = vec![
        "import os",
        "from a.b import c",
        "# import nothing",
        "    subprocess.run(['x'])",
        "subprocess.Popen ('x')",
        "os.system('ls')",
        "p = multiprocessing.Process(target=f)",
        "  Process(target=f)",
        "x = Process(target=f)",
        "importance = 1",
    ];
    let spawns = try_detect_spawns(&lines).expect("the patterns compile");
    let found: Vec<(usize, SpawnKind)> = spawns.iter().map(|s| (s.line, s.kind)).collect();
    assert_eq!(
        found,
        vec![
            (0, SpawnKind::Import),
            (1, SpawnKind::Import),
            (3, SpawnKind::Subprocess),
            (4, SpawnKind::Subprocess),
            (5, SpawnKind::OsSystem),
            (6, SpawnKind::Multiprocessing),
            (7, SpawnKind::Multiprocessing),
        ]
    );
    assert_eq!(spawns[2].raw, "subprocess.run(['x'])");
}

#[test]
fn a_line_that_could_be_two_kinds_is_the_first_of_them() {
    let lines = vec!["import os; os.system('x'); subprocess.call('y')", "import os; os.system('x')"];
    let spawns = try_detect_spawns(&lines).unwrap();
    assert_eq!(spawns[0].kind, SpawnKind::Subprocess);
    assert_eq!(spawns[1].kind, SpawnKind::OsSystem);
}

#[test]
fn spawn_points_from_given_kinds() {
    let lines = vec!["  # import a", "  import b"];
    let kinds = vec![Some(SpawnKind::Import), Some(SpawnKind::Import)];
    let spawns = spawns_at(&kinds, &lines);
    assert_eq!(spawns.len(), 1);
    assert_eq!((spawns[0].line, spawns[0].raw.as_str()), (1, "import b"));
}

#[test]
fn spawn_points_are_kept_by_file_in_order() {
    let mut map = SpawnMap::new();
    let points = |line: &str| try_detect_spawns(&vec![line]).unwrap();
    map.insert(path("b.py"), points("import b"));
    map.insert(path("a.py"), points("import a"));
    map.insert(path("b.py"), points("import c"));
    let entries = map.entries();
    assert_eq!(entries.len(), 2);
    assert_eq!(entries[0].file.text, "a.py");
    assert_eq!(entries[1].points[0].raw, "import c");
}
