use leakwatch::pyleak::analyzer::{Finding, Severity};
use leakwatch::pyleak::discovery::{SpawnKind, SpawnMap, SpawnPoint};
use leakwatch::pyleak::path::{FilePath, PathPart};
use leakwatch::pyleak::report::{
    esc, html_report, report_filename, report_filename_at, run_summary, severity_class,
    spawn_tag_class, spawn_tag_label, text_report, Paint, Piece,
};
use leakwatch::pyleak::style::CSS;

fn path(name: &str) -> FilePath {
    FilePath { parts: vec![PathPart::Name(name.as_bytes().to_vec())], text: name.to_string() }
}

fn finding(file: &str, function: Option<&str>, line: usize, severity: Severity) -> Finding {
    Finding {
        file: path(file),
        function: function.map(|f| f.to_string()),
        line,
        severity,
        category: "some-category",
        message: "a < b".to_string(),
    }
}

fn spawns() -> SpawnMap {
    let mut map = SpawnMap::new();
    map.insert(
        path("a.py"),
        vec![
            SpawnPoint { line: 0, kind: SpawnKind::Import, raw: "import os".to_string() },
            SpawnPoint {
                line: 4,
                kind: SpawnKind::Subprocess,
                raw: "subprocess.run(\"x\")".to_string(),
            },
        ],
    );
    map
}

fn plain(pieces: &Vec<Piece>) -> String {
    pieces.iter().map(|p| p.text.as_str()).collect()
}

#[test]
fn the_name_of_a_report_keeps_letters_and_numbers() {
    assert_eq!(
        report_filename_at(Some("my script.v2-é_٣"), "20260630_141533"),
        "pyleak_report_my_script_v2-é_٣_20260630_141533.html"
    );
    assert_eq!(report_filename_at(None, "T"), "pyleak_report_project_T.html");
    assert_eq!(report_filename_at(Some("a/☃"), "T"), "pyleak_report_a___T.html");
}

#[test]
fn reports_made_at_different_times_do_not_clobber_each_other() {
    let stem = Some("x");
    assert_ne!(
        report_filename_at(stem, "20260630_141533"),
        report_filename_at(stem, "20260630_141534")
    );
}

#[test]
fn reports_on_different_targets_do_not_clobber_each_other() {
    assert_ne!(
        report_filename_at(Some("a"), "20260630_141533"),
        report_filename_at(Some("a_20260630"), "20260630_141534")
    );
    let name = report_filename_at(Some("a b/c.d\\e"), "20260630_141533");
    assert_eq!(name, "pyleak_report_a_b_c_d_e_20260630_141533.html");
}

#[test]
fn the_name_of_a_report_holds_the_time() {
    let name = report_filename(Some("x"));
    assert!(name.starts_with("pyleak_report_x_"));
    assert!(name.ends_with(".html"));
    let stamp: Vec<char> = name["pyleak_report_x_".len()..name.len() - ".html".len()].chars().collect();
    assert_eq!(stamp.len(), 15);
    for (i, c) in stamp.iter().enumerate() {
        if i == 8 {
            assert_eq!(*c, '_');
        } else {
            assert!(c.is_ascii_digit());
        }
    }
}

#[test]
fn markup_is_escaped() {
    assert_eq!(esc("<a href=\"x\">&amp;</a>"), "&lt;a href=&quot;x&quot;&gt;&amp;amp;&lt;/a&gt;");
    assert_eq!(esc("it's"), "it's");
    for c in esc("<>\"<>").chars() {
        assert!(c != '<' && c != '>' && c != '"');
    }
}

#[test]
fn classes_and_labels() {
    assert_eq!(severity_class(&Severity::High), "sev-high");
    assert_eq!(severity_class(&Severity::Medium), "sev-med");
    assert_eq!(severity_class(&Severity::Low), "sev-low");
    assert_eq!(spawn_tag_class(&SpawnKind::Import), "tag-import");
    assert_eq!(spawn_tag_class(&SpawnKind::Subprocess), "tag-spawn");
    assert_eq!(spawn_tag_class(&SpawnKind::OsSystem), "tag-spawn");
    assert_eq!(spawn_tag_class(&SpawnKind::Multiprocessing), "tag-spawn");
    assert_eq!(spawn_tag_label(&SpawnKind::Subprocess), "subprocess");
    assert_eq!(spawn_tag_label(&SpawnKind::OsSystem), "os.system");
    assert_eq!(spawn_tag_label(&SpawnKind::Multiprocessing), "multiprocessing");
    assert_eq!(spawn_tag_label(&SpawnKind::Import), "import");
}

#[test]
fn a_page_without_findings() {
    let page = html_report(&Vec::new(), &SpawnMap::new(), 3, "a & b");
    let expected = format!(
        "<!DOCTYPE html><html lang=\"en\"><head><meta charset=\"UTF-8\"><title>pyleak report</title><style>{CSS}</style></head><body><header><h1>pyleak</h1><p class=\"subtitle\">static memory-leak report for <code>a &amp; b</code></p></header><section class=\"stats\"><div class=\"stat\"><span class=\"stat-num\">3</span><span class=\"stat-label\">files scanned</span></div><div class=\"stat\"><span class=\"stat-num\">0</span><span class=\"stat-label\">total issues</span></div><div class=\"stat sev-high-bg\"><span class=\"stat-num\">0</span><span class=\"stat-label\">high</span></div><div class=\"stat sev-med-bg\"><span class=\"stat-num\">0</span><span class=\"stat-label\">medium</span></div><div class=\"stat sev-low-bg\"><span class=\"stat-num\">0</span><span class=\"stat-label\">low</span></div></section><section><h2>Findings</h2><p class=\"empty\">No suspicious patterns found. 🎉</p></section><footer><p>Static pattern-matching, not execution — findings are suspects for review, not proven leaks.</p></footer></body></html>"
    );
    assert_eq!(page, expected);
}

#[test]
fn a_page_with_findings() {
    let findings = vec![
        finding("b.py", Some("f"), 2, Severity::High),
        finding("a.py", None, 9, Severity::Low),
        finding("b.py", Some("f"), 7, Severity::Medium),
    ];
    let page = html_report(&findings, &spawns(), 2, "p");
    assert!(page.contains("<section><h2>Execution tree discovered</h2><table class=\"spawns\"><tr><th>File</th><th>Line</th><th>Kind</th><th>Code</th></tr><tr><td class=\"mono\">a.py</td><td>1</td><td><span class=\"tag tag-import\">import</span></td><td class=\"mono\">import os</td></tr><tr><td class=\"mono\">a.py</td><td>5</td><td><span class=\"tag tag-spawn\">subprocess</span></td><td class=\"mono\">subprocess.run(&quot;x&quot;)</td></tr></table></section>"));
    assert!(page.contains("<section><h2>Findings</h2><h3 class=\"filename mono\">a.py</h3><div class=\"findings\"><div class=\"finding sev-low\"><div class=\"finding-head\"><span class=\"badge sev-low\">LOW</span><span class=\"loc\">line 9</span><span class=\"func mono\">module level</span><span class=\"category\">some-category</span></div><p class=\"message\">a &lt; b</p></div></div><h3 class=\"filename mono\">b.py</h3><div class=\"findings\"><div class=\"finding sev-high\"><div class=\"finding-head\"><span class=\"badge sev-high\">HIGH</span><span class=\"loc\">line 2</span><span class=\"func mono\">fn f()</span>"));
    assert!(page.contains("<section><h2>Summary by function</h2><table class=\"summary\"><tr><th>File :: Function</th><th>Issues</th></tr><tr><td class=\"mono\">a.py :: &lt;module&gt;</td><td>1</td></tr><tr><td class=\"mono\">b.py :: f</td><td>2</td></tr></table></section>"));
    assert!(page.contains("<span class=\"stat-num\">3</span><span class=\"stat-label\">total issues</span>"));
    assert!(page.contains("<span class=\"stat-num\">1</span><span class=\"stat-label\">medium</span>"));
}

#[test]
fn a_text_report_without_findings() {
    let pieces = text_report(&Vec::new(), &SpawnMap::new(), 3, "proj");
    assert_eq!(
        plain(&pieces),
        "\npyleak — static memory-leak report for proj\n3 python file(s) scanned\n\nNo suspicious patterns found. 🎉\n(this is a static heuristic scan, not a guarantee — see notes below)\n"
    );
    let painted: Vec<(Paint, &str)> = pieces
        .iter()
        .filter(|p| p.paint != Paint::Plain)
        .map(|p| (p.paint, p.text.as_str()))
        .collect();
    assert_eq!(painted[0], (Paint::BoldUnderlined, "pyleak — static memory-leak report for proj"));
    assert_eq!(painted[1], (Paint::BoldGreen, "No suspicious patterns found. 🎉"));
    assert_eq!(painted[2].0, Paint::Dimmed);
}

#[test]
fn a_text_report_with_findings() {
    let findings = vec![
        finding("b.py", Some("f"), 2, Severity::High),
        finding("a.py", None, 9, Severity::Low),
    ];
    let pieces = text_report(&findings, &spawns(), 2, "p");
    let label = format!("{:<28}", "fn f()");
    let module = format!("{:<28}", "module level");
    assert_eq!(
        plain(&pieces),
        format!("\npyleak — static memory-leak report for p\n2 python file(s) scanned\n\nExecution tree discovered:\n  a.py:1  [import]  import os\n  a.py:5  [subprocess]  subprocess.run(\"x\")\n\n2 potential issue(s) found:\n\na.py\n  [LOW] line 9     {module} some-category\n        a < b\n\nb.py\n  [HIGH] line 2     {label} some-category\n        a < b\n\nSummary by function:\n  - a.py :: <module>  (1 issue(s))\n  - b.py :: f  (1 issue(s))\n\nNote: this is static pattern-matching, not execution — it flags suspects for review, not proven leaks.\n")
    );
    let paint_of = |text: &str| pieces.iter().find(|p| p.text == text).map(|p| p.paint);
    assert_eq!(paint_of("import"), Some(Paint::Dimmed));
    assert_eq!(paint_of("subprocess"), Some(Paint::Cyan));
    assert_eq!(paint_of("HIGH"), Some(Paint::BoldRed));
    assert_eq!(paint_of("LOW"), Some(Paint::Plain));
    assert_eq!(paint_of("b.py"), Some(Paint::BoldYellow));
    assert_eq!(paint_of(&label), Some(Paint::Magenta));
}

#[test]
fn the_closing_line() {
    assert_eq!(run_summary(4, 12), "4 issue(s) found across 12 file(s).");
}
