use leakwatch::pyleak::analyzer::{
    analyze_file, report_caches, report_containers, report_finalizers, report_opened,
    report_registries, report_threads, sort_by_line, try_analyze_file, Finding, Severity,
};
use leakwatch::pyleak::matches::{
    CacheKind, CacheMark, Container, OpenedFile, Registry, StartedThread,
};
use leakwatch::pyleak::path::{FilePath, PathPart};
use leakwatch::pyleak::scanner::FuncSpan;

fn script() -> FilePath {
    FilePath { parts: vec![PathPart::Name(b"a.py".to_vec())], text: "a.py".to_string() }
}

fn analyze(content: &str) -> Vec<Finding> {
    try_analyze_file(&script(), content).expect("the patterns compile")
}

fn brief(findings: &Vec<Finding>) -> Vec<(usize, String, Option<String>)> {
    findings.iter().map(|f| (f.line, f.category.to_string(), f.function.clone())).collect()
}

fn one(line: usize, category: &str, function: Option<&str>) -> Vec<(usize, String, Option<String>)> {
    vec![(line, category.to_string(), function.map(|f| f.to_string()))]
}

#[test]
fn severities_in_words() {
    assert_eq!(Severity::Low.text(), "LOW");
    assert_eq!(Severity::Medium.text(), "MED");
    assert_eq!(Severity::High.text(), "HIGH");
}

#[test]
fn a_container_that_only_grows() {
    let found = analyze("cache = []\ndef add(x):\n    cache.append(x)\n    cache.append(x)\n");
    assert_eq!(brief(&found), one(1, "unbounded-global-container", Some("add")));
    assert_eq!(found[0].severity, Severity::High);
    assert_eq!(
        found[0].message,
        "module-level container 'cache' is grown (2 site(s)) but never cleared, popped, or reassigned anywhere in this file — it will grow for the life of the process"
    );
    assert_eq!(found[0].file.text, "a.py");
}

#[test]
fn growth_is_reported_for_each_function() {
    let found = analyze("d = {}\ndef f():\n    d['a'] = 1\ndef g():\n    d.update(x)\nd[1] = 2\n");
    assert_eq!(found.len(), 3);
    let names: Vec<Option<String>> = found.iter().map(|f| f.function.clone()).collect();
    assert_eq!(names, vec![Some("f".to_string()), Some("g".to_string()), None]);
    for f in &found {
        assert_eq!(f.line, 1);
    }
}

#[test]
fn a_container_that_shrinks_or_is_reassigned_is_fine() {
    assert_eq!(analyze("c = []\ndef f():\n    c.append(1)\n    c.clear()\n").len(), 0);
    assert_eq!(analyze("c = set()\ndef f():\n    c.add(1)\n    c = set()\n").len(), 0);
    assert_eq!(analyze("c = []\nprint(c)\n").len(), 0);
    assert_eq!(analyze("c = {}\nif c['a'] == 1:\n    pass\n").len(), 0);
    assert_eq!(analyze("    c = []\n    c.append(1)\n").len(), 0);
}

#[test]
fn any_other_binding_of_the_name_counts_as_reassignment() {
    let grown = "C = []\ndef f(x):\n    C.append(x)\n";
    let rebound = vec![
        "def g():\n    global C\n    C = load()\n",
        "C = C[-10:]\n",
        "C: list = load()\n",
        "D = C = []\n",
        "C, D = load()\n",
        "D, C = load()\n",
        "x = 1; C = load()\n",
        "if len(C) > 9: C = []\n",
        "C =\\\n    load()\n",
        "(D, C) = load()\n",
        "C, *D = load()\n",
        "D.x, C = load()\n",
        "try:\n    C = load()\nexcept E:\n    pass\n",
        "def g(\n    a,\n):\n    global B, C\n    if a:\n        C = load()\n",
        "def g():\n    C = {}\n",
    ];
    for end in rebound {
        assert_eq!(analyze(&format!("{grown}{end}")).len(), 0, "{end}");
    }
    for end in vec!["if C == 1:\n", "x = C == 1\n", "CC = 1\n", "f(C=1)\n", "C += [1]\n", "# C = []\n"] {
        assert_eq!(analyze(&format!("{grown}{end}")).len(), 1, "{end}");
    }
}

#[test]
fn what_only_reads_like_a_reassignment_does_not_count() {
    let found = analyze("cache = {}\ndef put(k, v):\n    cache[k] = v\napp = App(\n    cache=cache,\n)\n");
    assert_eq!(brief(&found), one(1, "unbounded-global-container", Some("put")));
    let grown = "C = []\ndef f(x):\n    C.append(x)\n";
    let others = vec![
        "g(\n    C=None,\n)\n",
        "def g(\n    C: list = None,\n):\n    pass\n",
        "print(\n    C, end=\"\")\n",
        "class A:\n    C = None\n",
        "class A:\n    def g(self):\n        C = load()\n",
        "def g():\n    C = load()\n",
        "def g(\n    a,\n):\n    C = load()\n",
        "def g():\n    global C\n    def h():\n        C = load()\n",
        "def g():\n    def h():\n        global C\n    C = load()\n",
        "def g(): x = 1; C = load()\n",
        "h = lambda x, C=1: x\n",
        "if f(lambda: 0, C=1): pass\n",
        "s = \"; C = 1\"\n",
        "s = '''\nC = 1\n'''\n",
        "assert x, \\\n    C == 1\n",
        "with a as b, \\\n    C, d = 1\n",
        "C.x = 1\nC[0] == 1\n",
        "(D.C, x) = load()\n",
        "C: list\n",
    ];
    for end in others {
        assert_eq!(analyze(&format!("{grown}{end}")).len(), 1, "{end}");
    }
}

#[test]
fn caches_without_a_bound() {
    let found = analyze("@lru_cache\n@other\ndef f (x):\n    pass\n@functools.cache\ndef g():\n    pass\n");
    assert_eq!(found.len(), 2);
    assert_eq!((found[0].line, found[0].function.clone()), (1, Some("f".to_string())));
    assert!(found[0].message.starts_with("@lru_cache has no maxsize"));
    assert_eq!((found[1].line, found[1].function.clone()), (5, Some("g".to_string())));
    assert!(found[1].message.starts_with("@cache has no maxsize"));
    assert_eq!(found[0].severity, Severity::Medium);
}

#[test]
fn a_bounded_cache_is_fine_and_a_lost_decorator_names_no_function() {
    assert_eq!(analyze("@lru_cache(maxsize=10)\ndef f():\n    pass\n").len(), 0);
    assert_eq!(brief(&analyze("@cache\nx = 1\ndef f():\n")), one(1, "unbounded-cache", None));
}

#[test]
fn every_lru_cache_without_a_size_is_reported() {
    for args in vec!["", "()", "( )", "(typed=True)", "(\n    typed=True,\n)", "(  # maxsize=3\n)", "  # note", "(typed=f(maxsize=1))"] {
        let found = analyze(&format!("@lru_cache{args}\ndef f(a):\n    return a\n"));
        assert_eq!(brief(&found), one(1, "unbounded-cache", Some("f")), "{args}");
    }
    for args in vec!["(128)", "(typed=True, maxsize=4)", "(SIZE, typed=True)", "(2 ** 10)", "(\n    maxsize=4,\n)", "(\n    4\n)", "(settings.get(name=\"size\"))", "(A if x == y else B)", "(*args)"] {
        let found = analyze(&format!("@functools.lru_cache{args}\ndef f(a):\n    return a\n"));
        assert_eq!(found.len(), 0, "{args}");
    }
}

#[test]
fn a_cache_on_an_async_function() {
    let found = analyze("@cache  # note\nasync def f (a):\n    return a\n");
    assert_eq!(brief(&found), one(1, "unbounded-cache", Some("f")));
    assert_eq!(analyze("@cached\ndef f():\n    pass\n").len(), 0);
}

#[test]
fn files_that_are_not_closed() {
    let found = analyze("def f():\n    h = open('x')\n    return h\n");
    assert_eq!(brief(&found), one(2, "unclosed-file-handle", Some("f")));
    assert_eq!(
        found[0].message,
        "'h' is assigned from open() outside a `with` block and never explicitly closed in this scope — prefer `with open(...) as h:`"
    );
    assert_eq!(analyze("def f():\n    h = open('x')\n    h.close()\n").len(), 0);
    assert_eq!(analyze("with open('x') as h:\n    pass\n").len(), 0);
}

#[test]
fn a_file_closed_in_another_function_is_still_open() {
    let found = analyze("def f():\n    h = open('x')\ndef g():\n    h.close()\n");
    assert_eq!(brief(&found), one(2, "unclosed-file-handle", Some("f")));
    assert_eq!(analyze("h = open('x')\ndef g():\n    h.close()\n").len(), 0);
}

#[test]
fn a_file_belongs_to_the_innermost_function_even_where_names_repeat() {
    let found = analyze("def f():\n    def f():\n        h = open('x')\n    h.close()\n");
    assert_eq!(brief(&found), one(3, "unclosed-file-handle", Some("f")));
    let found = analyze("def f():\n    def f():\n        t = Thread(target=g)\n    t.join()\n");
    assert_eq!(brief(&found), one(3, "dangling-thread", Some("f")));
}

#[test]
fn a_daemon_is_told_by_the_whole_call() {
    assert_eq!(analyze("t = Thread(\n    target=w,\n    daemon=True)\nt.start()\n").len(), 0);
    assert_eq!(analyze("t = Thread(target=f(1), name=')',\n  daemon = True)\n").len(), 0);
    assert_eq!(analyze("t = Thread(\n    target=w)\nu(daemon=True)\n").len(), 1);
    assert_eq!(analyze("t = Thread(target=w)  # daemon=True\n").len(), 1);
    assert_eq!(analyze("t = Thread(name='daemon=True')\n").len(), 1);
}

#[test]
fn threads_that_are_never_joined() {
    let found = analyze("def f():\n    t = threading.Timer(1, g)\n    t.start()\n");
    assert_eq!(brief(&found), one(2, "dangling-thread", Some("f")));
    assert_eq!(found[0].severity, Severity::Low);
    assert_eq!(
        found[0].message,
        "Timer 't' is created without daemon=True and never joined in this scope — if these accumulate across calls, the thread objects (and their frames) won't be collected"
    );
    assert_eq!(analyze("t = Thread(target=f, daemon=True)\n").len(), 0);
    assert_eq!(analyze("t = Thread(target=f)\nt.join()\n").len(), 0);
}

#[test]
fn listeners_that_are_never_removed() {
    let found = analyze("class A:\n    def on(self, f):\n        self.listeners.append(f)\n");
    assert_eq!(brief(&found), one(3, "unremoved-listener", Some("on")));
    assert_eq!(
        found[0].message,
        "'listeners' looks like a listener/callback registry — entries are appended here but nothing in this file ever removes from 'listeners', so registered callbacks (and whatever they close over) accumulate"
    );
    assert_eq!(analyze("myCALLBACKs.append(f)\nmyCALLBACKs.remove(f)\n").len(), 0);
    assert_eq!(analyze("items.append(f)\n").len(), 0);
    assert_eq!(analyze("myHandlers.append(f)\nmyHandlers.append(g)\n").len(), 2);
}

#[test]
fn finalizers_are_noted_with_their_class() {
    let found = analyze("class A:\n    def __del__(self):\n        pass\n");
    assert_eq!(brief(&found), one(2, "del-with-possible-cycle", Some("A.__del__")));
    assert_eq!(found[0].severity, Severity::Low);
    assert_eq!(brief(&analyze("def __del__(self):\n")), one(1, "del-with-possible-cycle", None));
}

#[test]
fn all_six_checks_fire_and_findings_stand_by_line() {
    let content = "class A:\n    def __del__(self):\n        pass\nhandlers.append(f)\nt = Thread(target=f)\nh = open('x')\n@cache\ndef f():\n    pass\nall = []\nall.append(1)\n";
    let found = analyze(content);
    let categories: Vec<&str> = found.iter().map(|f| f.category).collect();
    assert_eq!(
        categories,
        vec![
            "del-with-possible-cycle",
            "unremoved-listener",
            "dangling-thread",
            "unclosed-file-handle",
            "unbounded-cache",
            "unbounded-global-container",
        ]
    );
    for i in 1..found.len() {
        assert!(found[i - 1].line <= found[i].line);
    }
    assert_eq!(format!("{:?}", analyze_file(&script(), content)), format!("{found:?}"));
}

#[test]
fn an_empty_file_has_no_findings() {
    assert_eq!(analyze("").len(), 0);
}

fn finding(line: usize, message: &str) -> Finding {
    Finding {
        file: script(),
        function: None,
        line,
        severity: Severity::Low,
        category: "c",
        message: message.to_string(),
    }
}

#[test]
fn findings_of_one_line_keep_their_order() {
    let sorted = sort_by_line(vec![
        finding(3, "a"),
        finding(1, "b"),
        finding(3, "c"),
        finding(1, "d"),
        finding(2, "e"),
    ]);
    let order: Vec<&str> = sorted.iter().map(|f| f.message.as_str()).collect();
    assert_eq!(order, vec!["b", "d", "e", "a", "c"]);
}

#[test]
fn matches_are_turned_into_findings() {
    let funcs = vec![FuncSpan { name: "f".to_string(), indent: 0, start: 0, end: 3 }];
    let mut found: Vec<Finding> = Vec::new();
    let container = Container {
        line: 3,
        name: "c".to_string(),
        grows: vec![false, true, false, true],
        shrinks: vec![false, false, false, true],
    };
    report_containers(&script(), &vec![container], &funcs, &mut found);
    assert_eq!(brief(&found), one(4, "unbounded-global-container", Some("f")));
    found.clear();

    let opened = OpenedFile {
        line: 1,
        name: "h".to_string(),
        closes: vec![false, false, false, true],
    };
    report_opened(&script(), &vec![opened], &funcs, &mut found);
    assert_eq!(brief(&found), one(2, "unclosed-file-handle", Some("f")));
    found.clear();

    let thread = StartedThread {
        line: 3,
        kind: "Thread".to_string(),
        name: "t".to_string(),
        joins: vec![true, false, false, false],
    };
    report_threads(&script(), &vec![thread], &funcs, &mut found);
    assert_eq!(found.len(), 0);

    let registry = Registry {
        name: "r".to_string(),
        appends: vec![false, true, false, true],
        removes: vec![false, false, false, false],
    };
    report_registries(&script(), &vec![registry], &funcs, &mut found);
    assert_eq!(found.len(), 2);
    assert_eq!((found[0].line, found[0].function.clone()), (2, Some("f".to_string())));
    assert_eq!((found[1].line, found[1].function.clone()), (4, None));
    found.clear();

    let lines = vec!["@cache", "def g():"];
    let mark = CacheMark { kind: CacheKind::Cache, below: 1 };
    report_caches(&script(), &vec![Some(mark), None], &lines, &mut found);
    assert_eq!(brief(&found), one(1, "unbounded-cache", Some("g")));
    found.clear();

    report_finalizers(&script(), &vec![false, true], &Vec::new(), &mut found);
    assert_eq!(brief(&found), one(2, "del-with-possible-cycle", None));
}
