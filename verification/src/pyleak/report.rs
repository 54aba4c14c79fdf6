//! The reports on a scan, as text.

use crate::clock::{is_digit, is_stamp, local_time};
use crate::pyleak::analyzer::{
    finding_texts, severity_text, Finding, FindingText, Severity,
};
use crate::pyleak::discovery::{
    file_spawns, has_path, law_ordered_paths, ordered_paths, put_path, rising, spawn_texts,
    FileSpawns, FileSpawnsText, SpawnKind, SpawnMap, SpawnPoint, SpawnText,
};
use crate::pyleak::style::CSS;
use crate::pyleak::path::{path_side, path_texts, same_path, FilePath, PathText, Side};
use crate::tally::{
    law_tally_in_order, law_tally_total, tallied_in_order, tally_in_order, text_counts,
    text_occurrences, total,
};
use crate::text::{
    decimal, decimal_text, law_occurs, law_occurs_in_both, law_padded, occurs, opt_str_text,
    opt_text, pad_right, padded, stands_at, texts, to_chars,
};
use vstd::prelude::*;

verus! {

// ---- file name -----------------------------------------------------------------------------

/// Whether `char::is_alphanumeric` says that a character beyond ASCII is a letter or a number.
pub uninterp spec fn alphanumeric(c: char) -> bool;

/// Whether a character is a letter or a digit of ASCII.
pub open spec fn ascii_alphanumeric(c: char) -> bool {
    'a' <= c <= 'z' || 'A' <= c <= 'Z' || '0' <= c <= '9'
}

/// `char::is_alphanumeric`: whether a character is a letter or a number of Unicode, which
/// the character alone decides. In ASCII these are the letters and the digits.
pub assume_specification[ char::is_alphanumeric ](c: char) -> (r: bool)
    ensures
        c as u32 >= 128 ==> r == alphanumeric(c),
        (c as u32) < 128 ==> r == ascii_alphanumeric(c),
;

/// Whether a character may stand in the name of a report: a letter, a number, an underscore
/// or a hyphen.
pub open spec fn name_letter(c: char) -> bool {
    ||| ascii_alphanumeric(c)
    ||| c as u32 >= 128 && alphanumeric(c)
    ||| c == '_'
    ||| c == '-'
}

/// A character that may stand in the name of a report, or the one that stands for it.
pub open spec fn name_char(c: char) -> char {
    if name_letter(c) {
        c
    } else {
        '_'
    }
}

/// What the name of a report holds of the name of its target.
pub open spec fn name_stem(stem: Option<Seq<char>>) -> Seq<char> {
    match stem {
        Some(s) => s.map_values(|c: char| name_char(c)),
        None => "project"@,
    }
}

/// The name of a report on a target, made at the given time.
pub open spec fn filename_at(stem: Option<Seq<char>>, timestamp: Seq<char>) -> Seq<char> {
    "pyleak_report_"@ + name_stem(stem) + "_"@ + timestamp + ".html"@
}

/// Names of equal text end in stamps of equal length.
proof fn lemma_stamp_lengths(
    first_stem: Option<Seq<char>>,
    later_stem: Option<Seq<char>>,
    first: Seq<char>,
    later: Seq<char>,
)
    requires
        is_stamp(first),
        is_stamp(later),
        filename_at(first_stem, first) == filename_at(later_stem, later),
    ensures
        first.len() >= later.len(),
{
    reveal_strlit("_");
    let name = filename_at(first_stem, first);
    let end = name.len() - ".html"@.len();
    if first.len() < later.len() {
        let back = end - later.len();
        assert forall|k: int| 0 <= k < later.len() implies #[trigger] later[k] == name[back
            + k] by {
            assert(filename_at(later_stem, later)[back + k] == later[k]);
        }
        if first.len() == 15 {
            assert(name[end - 16] == '_');
            assert(later[later.len() - 16] == name[end - 16]);
        } else {
            assert(name[end - first.len()] == first[0]);
            assert(later[later.len() - first.len()] == name[end - first.len()]);
            assert(is_digit(later[later.len() - first.len()]));
        }
    }
}

/// Reports that were made at different times have different names, whatever their targets.
pub proof fn law_report_names_differ(
    first_stem: Option<Seq<char>>,
    later_stem: Option<Seq<char>>,
    first: Seq<char>,
    later: Seq<char>,
)
    requires
        is_stamp(first),
        is_stamp(later),
        first != later,
    ensures
        filename_at(first_stem, first) != filename_at(later_stem, later),
{
    let tail = ".html"@;
    let a = "pyleak_report_"@ + name_stem(first_stem) + "_"@;
    let b = "pyleak_report_"@ + name_stem(later_stem) + "_"@;
    let x = a + first + tail;
    let y = b + later + tail;
    if filename_at(first_stem, first) == filename_at(later_stem, later) {
        lemma_stamp_lengths(first_stem, later_stem, first, later);
        lemma_stamp_lengths(later_stem, first_stem, later, first);
        assert(x == y);
        assert(a.len() == b.len());
        let at = a.len() as int;
        assert(x.subrange(at, at + first.len()) =~= first);
        assert(y.subrange(at, at + later.len()) =~= later);
    }
}

/// The name of a report starts with `pyleak_report_` and ends in `.html`. Before that ending,
/// where the year has four digits, it holds letters, numbers, underscores and hyphens alone: no
/// dot, space or separator of the target is left.
pub proof fn law_report_name_is_plain(stem: Option<Seq<char>>, timestamp: Seq<char>)
    requires
        is_stamp(timestamp),
        timestamp.len() == 15,
    ensures
        ({
            let name = filename_at(stem, timestamp);
            let end = name.len() - ".html"@.len();
            &&& stands_at(name, "pyleak_report_"@, 0)
            &&& stands_at(name, ".html"@, end)
            &&& forall|k: int| 0 <= k < end ==> name_letter(#[trigger] name[k])
        }),
        !name_letter('.') && !name_letter(' ') && !name_letter('/') && !name_letter('\\'),
{
    reveal_strlit("pyleak_report_");
    reveal_strlit("project");
    reveal_strlit("_");
    reveal_strlit(".html");
    let head = "pyleak_report_"@;
    let middle = name_stem(stem);
    let name = filename_at(stem, timestamp);
    let end = name.len() - 5;
    assert(name.subrange(0, head.len() as int) =~= head);
    assert(name.subrange(end, end + 5) =~= ".html"@);
    assert forall|k: int| 0 <= k < head.len() implies name_letter(#[trigger] head[k]) by {}
    assert forall|k: int| 0 <= k < middle.len() implies name_letter(#[trigger] middle[k]) by {}
    assert forall|k: int| 0 <= k < timestamp.len() implies name_letter(
        #[trigger] timestamp[k],
    ) by {
        assert(k < 8 ==> is_digit(timestamp[k]));
        assert(k > 8 ==> is_digit(timestamp[k]));
    }
    assert forall|k: int| 0 <= k < end implies name_letter(#[trigger] name[k]) by {
        let under = head.len() + middle.len();
        if k < head.len() {
            assert(name[k] == head[k]);
        } else if k < under {
            assert(name[k] == middle[k - head.len()]);
        } else if k == under {
            assert(name[k] == '_');
        } else {
            assert(name[k] == timestamp[k - under - 1]);
        }
    }
}

/// The name of a report, where `stem` is the name of the target without its extension and
/// `timestamp` the time of the run.
pub fn report_filename_at(stem: Option<&str>, timestamp: &str) -> (r: String)
    ensures
        r@ == filename_at(opt_str_text(stem), timestamp@),
{
    let mut name = String::new();
    match stem {
        Some(s) => {
            let text = to_chars(s);
            let mut i: usize = 0;
            while i < text.len()
                invariant
                    i <= text@.len(),
                    text@ == s@,
                    name@ == s@.take(i as int).map_values(|c: char| name_char(c)),
                decreases text@.len() - i,
            {
                let c = text[i];
                if c.is_alphanumeric() || c == '_' || c == '-' {
                    name.push(c);
                } else {
                    name.push('_');
                }
                i = i + 1;
                assert(name@ =~= s@.take(i as int).map_values(|c: char| name_char(c)));
            }
            assert(s@.take(i as int) =~= s@);
        },
        None => {
            name.append("project");
            assert(name@ =~= "project"@);
        },
    }
    let mut r = String::from_str("pyleak_report_");
    r.append(&name);
    r.append("_");
    r.append(timestamp);
    r.append(".html");
    r
}

/// A name for a report that holds the name of the target and the time of day, so that the
/// reports of repeated runs stand side by side.
pub fn report_filename(stem: Option<&str>) -> (r: String)
    ensures
        exists|timestamp: Seq<char>|
            is_stamp(timestamp) && r@ == #[trigger] filename_at(opt_str_text(stem), timestamp),
{
    let timestamp = local_time("%Y%m%d_%H%M%S");
    report_filename_at(stem, &timestamp)
}

// ---- words ---------------------------------------------------------------------------------

/// The text that shows a character in a page.
pub open spec fn escaped_char(c: char) -> Seq<char> {
    if c == '&' {
        "&amp;"@
    } else if c == '<' {
        "&lt;"@
    } else if c == '>' {
        "&gt;"@
    } else if c == '"' {
        "&quot;"@
    } else {
        seq![c]
    }
}

/// The text that shows `s` in a page.
pub open spec fn escaped(s: Seq<char>) -> Seq<char>
    decreases s.len(),
{
    if s.len() == 0 {
        seq![]
    } else {
        escaped(s.drop_last()) + escaped_char(s.last())
    }
}

/// Nothing that is shown in a page opens or closes a tag or an attribute.
pub proof fn law_escaped_is_plain(s: Seq<char>)
    ensures
        !escaped(s).contains('<'),
        !escaped(s).contains('>'),
        !escaped(s).contains('"'),
    decreases s.len(),
{
    if s.len() > 0 {
        law_escaped_is_plain(s.drop_last());
        reveal_strlit("&amp;");
        reveal_strlit("&lt;");
        reveal_strlit("&gt;");
        reveal_strlit("&quot;");
        let head = escaped(s.drop_last());
        let tail = escaped_char(s.last());
        assert(!tail.contains('<') && !tail.contains('>') && !tail.contains('"'));
        assert forall|i: int| 0 <= i < (head + tail).len() implies (head + tail)[i] != '<' && (head
            + tail)[i] != '>' && (head + tail)[i] != '"' by {
            if i < head.len() {
                assert(head.contains(head[i]));
            } else {
                assert(tail.contains(tail[i - head.len()]));
            }
        }
    }
}

/// The text that shows `s` in a page.
pub fn esc(s: &str) -> (r: String)
    ensures
        r@ == escaped(s@),
{
    let text = to_chars(s);
    let mut r = String::new();
    let mut i: usize = 0;
    while i < text.len()
        invariant
            i <= text@.len(),
            text@ == s@,
            r@ == escaped(s@.take(i as int)),
        decreases text@.len() - i,
    {
        let c = text[i];
        assert(s@.take(i + 1).drop_last() =~= s@.take(i as int));
        if c == '&' {
            r.append("&amp;");
        } else if c == '<' {
            r.append("&lt;");
        } else if c == '>' {
            r.append("&gt;");
        } else if c == '"' {
            r.append("&quot;");
        } else {
            r.push(c);
            assert(r@ =~= escaped(s@.take(i as int)) + seq![c]);
        }
        i = i + 1;
    }
    assert(s@.take(i as int) =~= s@);
    r
}

/// The style class of a severity.
pub open spec fn severity_style(s: Severity) -> Seq<char> {
    match s {
        Severity::High => "sev-high"@,
        Severity::Medium => "sev-med"@,
        Severity::Low => "sev-low"@,
    }
}

/// The style class of a severity.
pub fn severity_class(s: &Severity) -> (r: &'static str)
    ensures
        r@ == severity_style(*s),
{
    match s {
        Severity::High => "sev-high",
        Severity::Medium => "sev-med",
        Severity::Low => "sev-low",
    }
}

/// The style class of a kind of spawn point.
pub open spec fn spawn_style(kind: SpawnKind) -> Seq<char> {
    match kind {
        SpawnKind::Import => "tag-import"@,
        _ => "tag-spawn"@,
    }
}

/// The style class of a kind of spawn point.
pub fn spawn_tag_class(kind: &SpawnKind) -> (r: &'static str)
    ensures
        r@ == spawn_style(*kind),
{
    match kind {
        SpawnKind::Subprocess | SpawnKind::OsSystem | SpawnKind::Multiprocessing => "tag-spawn",
        SpawnKind::Import => "tag-import",
    }
}

/// The word that shows a kind of spawn point.
pub open spec fn spawn_word(kind: SpawnKind) -> Seq<char> {
    match kind {
        SpawnKind::Subprocess => "subprocess"@,
        SpawnKind::OsSystem => "os.system"@,
        SpawnKind::Multiprocessing => "multiprocessing"@,
        SpawnKind::Import => "import"@,
    }
}

/// The word that shows a kind of spawn point.
pub fn spawn_tag_label(kind: &SpawnKind) -> (r: &'static str)
    ensures
        r@ == spawn_word(*kind),
{
    match kind {
        SpawnKind::Subprocess => "subprocess",
        SpawnKind::OsSystem => "os.system",
        SpawnKind::Multiprocessing => "multiprocessing",
        SpawnKind::Import => "import",
    }
}

/// How the function of a finding is shown.
pub open spec fn function_label(function: Option<Seq<char>>) -> Seq<char> {
    match function {
        Some(name) => "fn "@ + name + "()"@,
        None => "module level"@,
    }
}

fn make_function_label(function: &Option<String>) -> (r: String)
    ensures
        r@ == function_label(opt_text(*function)),
{
    match function {
        Some(name) => {
            let mut r = String::from_str("fn ");
            r.append(name);
            r.append("()");
            r
        },
        None => String::from_str("module level"),
    }
}

// ---- groups --------------------------------------------------------------------------------

/// How many findings are of a severity.
pub open spec fn severity_count(findings: Seq<FindingText>, severity: Severity) -> nat
    decreases findings.len(),
{
    if findings.len() == 0 {
        0
    } else {
        severity_count(findings.drop_last(), severity) + if findings.last().severity == severity {
            1nat
        } else {
            0nat
        }
    }
}

/// Every finding is of one severity: the counts add up to the number of findings.
pub proof fn law_severity_counts(findings: Seq<FindingText>)
    ensures
        severity_count(findings, Severity::High) + severity_count(findings, Severity::Medium)
            + severity_count(findings, Severity::Low) == findings.len(),
    decreases findings.len(),
{
    if findings.len() > 0 {
        law_severity_counts(findings.drop_last());
    }
}

fn count_severity(findings: &[Finding], severity: Severity) -> (r: usize)
    ensures
        r == severity_count(finding_texts(findings@), severity),
{
    let ghost all = finding_texts(findings@);
    let mut count: usize = 0;
    let mut i: usize = 0;
    while i < findings.len()
        invariant
            i <= findings@.len(),
            count <= i,
            all == finding_texts(findings@),
            count == severity_count(all.take(i as int), severity),
        decreases findings@.len() - i,
    {
        proof {
            assert(all.take(i + 1).drop_last() =~= all.take(i as int));
            assert(all.take(i + 1).last() == findings@[i as int]@);
        }
        if findings[i].severity == severity {
            count = count + 1;
        }
        i = i + 1;
    }
    assert(all.take(i as int) =~= all);
    count
}

/// The files that findings are on, in the order of their paths.
pub open spec fn files_with_findings(findings: Seq<FindingText>) -> Seq<PathText> {
    ordered_paths(Seq::new(findings.len(), |i: int| findings[i].file))
}

fn collect_files(findings: &[Finding]) -> (r: Vec<FilePath>)
    ensures
        path_texts(r@) == files_with_findings(finding_texts(findings@)),
{
    let ghost all = finding_texts(findings@);
    let ghost paths = Seq::new(all.len(), |i: int| all[i].file);
    let mut files: Vec<FilePath> = Vec::new();
    let mut i: usize = 0;
    assert(path_texts(files@) =~= ordered_paths(paths.take(0)));
    while i < findings.len()
        invariant
            i <= findings@.len() == paths.len(),
            all == finding_texts(findings@),
            paths == Seq::new(all.len(), |i: int| all[i].file),
            path_texts(files@) == ordered_paths(paths.take(i as int)),
        decreases findings@.len() - i,
    {
        proof {
            assert(paths.take(i + 1).drop_last() =~= paths.take(i as int));
            assert(paths.take(i + 1).last() == findings@[i as int].file@);
        }
        put_path(&mut files, findings[i].file.clone());
        i = i + 1;
    }
    assert(paths.take(i as int) =~= paths);
    files
}

/// The key under which a finding is counted: its file and its function.
pub open spec fn summary_key(f: FindingText) -> Seq<char> {
    f.file.text + " :: "@ + (match f.function {
        Some(name) => name,
        None => "<module>"@,
    })
}

/// How many findings there are on each function, in the order of the keys.
pub open spec fn summary(findings: Seq<FindingText>) -> Seq<(Seq<char>, nat)> {
    tallied_in_order(Seq::new(findings.len(), |i: int| summary_key(findings[i])))
}

/// Every finding is counted in the summary once, and the file of every finding is among
/// those that the report goes through, each once and in order.
pub proof fn law_nothing_is_left_out(findings: Seq<FindingText>, i: int)
    requires
        0 <= i < findings.len(),
    ensures
        total(summary(findings)) == findings.len(),
        rising(files_with_findings(findings)),
        has_path(files_with_findings(findings), findings[i].file),
{
    law_tally_total(Seq::new(findings.len(), |i: int| summary_key(findings[i])));
    let paths = Seq::new(findings.len(), |i: int| findings[i].file);
    law_ordered_paths(paths);
    assert(same_path(paths[i], findings[i].file));
    assert(has_path(paths, findings[i].file));
}

fn make_summary(findings: &[Finding]) -> (r: Vec<(String, usize)>)
    ensures
        text_counts(r@) == summary(finding_texts(findings@)),
{
    let ghost all = finding_texts(findings@);
    let ghost wanted = Seq::new(all.len(), |i: int| summary_key(all[i]));
    let mut keys: Vec<String> = Vec::new();
    let mut i: usize = 0;
    while i < findings.len()
        invariant
            i <= findings@.len() == wanted.len(),
            keys@.len() == i,
            all == finding_texts(findings@),
            wanted == Seq::new(all.len(), |i: int| summary_key(all[i])),
            forall|k: int| 0 <= k < i ==> (#[trigger] keys@[k])@ == wanted[k],
        decreases findings@.len() - i,
    {
        assert(all[i as int] == findings@[i as int]@);
        let mut key = findings[i].file.text.clone();
        key.append(" :: ");
        match &findings[i].function {
            Some(name) => key.append(name),
            None => key.append("<module>"),
        }
        keys.push(key);
        i = i + 1;
    }
    assert(texts(keys@) =~= wanted);
    tally_in_order(&keys)
}

/// Whether any file has a spawn point.
pub open spec fn any_spawns(spawns: Seq<FileSpawnsText>) -> bool {
    exists|i: int| 0 <= i < spawns.len() && (#[trigger] spawns[i]).points.len() > 0
}

fn has_spawns(spawns: &Vec<FileSpawns>) -> (r: bool)
    ensures
        r == any_spawns(file_spawns(spawns@)),
{
    let ghost all = file_spawns(spawns@);
    let mut i: usize = 0;
    while i < spawns.len()
        invariant
            i <= spawns@.len(),
            all == file_spawns(spawns@),
            forall|k: int| 0 <= k < i ==> (#[trigger] all[k]).points.len() == 0,
        decreases spawns@.len() - i,
    {
        assert(all[i as int].points.len() == spawns@[i as int].points@.len());
        if spawns[i].points.len() > 0 {
            return true;
        }
        i = i + 1;
    }
    false
}

// ---- the page ------------------------------------------------------------------------------

/// A number with what it counts.
pub open spec fn stat(class: Seq<char>, count: nat, label: Seq<char>) -> Seq<char> {
    "<div class=\""@ + class + "\"><span class=\"stat-num\">"@ + decimal(count)
        + "</span><span class=\"stat-label\">"@ + label + "</span></div>"@
}

/// The head of the page, which names the target.
pub open spec fn page_head(root: Seq<char>) -> Seq<char> {
    "<!DOCTYPE html><html lang=\"en\"><head><meta charset=\"UTF-8\">"@
        + "<title>pyleak report</title><style>"@ + CSS@ + "</style></head><body>"@
        + "<header><h1>pyleak</h1><p class=\"subtitle\">static memory-leak report for <code>"@
        + escaped(root) + "</code></p></header>"@
}

/// The numbers of the page.
pub open spec fn page_stats(findings: Seq<FindingText>, files_scanned: nat) -> Seq<char> {
    "<section class=\"stats\">"@ + stat("stat"@, files_scanned, "files scanned"@) + stat(
        "stat"@,
        findings.len(),
        "total issues"@,
    ) + stat("stat sev-high-bg"@, severity_count(findings, Severity::High), "high"@) + stat(
        "stat sev-med-bg"@,
        severity_count(findings, Severity::Medium),
        "medium"@,
    ) + stat("stat sev-low-bg"@, severity_count(findings, Severity::Low), "low"@)
        + "</section>"@
}

/// The row of a spawn point.
pub open spec fn spawn_row(file: Seq<char>, p: SpawnText) -> Seq<char> {
    "<tr><td class=\"mono\">"@ + escaped(file) + "</td><td>"@ + decimal((p.line + 1) as nat)
        + "</td><td><span class=\"tag "@ + spawn_style(p.kind) + "\">"@ + spawn_word(p.kind)
        + "</span></td><td class=\"mono\">"@ + escaped(p.raw) + "</td></tr>"@
}

/// The rows of the first `n` spawn points of a file.
pub open spec fn spawn_rows(file: Seq<char>, points: Seq<SpawnText>, n: int) -> Seq<char>
    decreases n,
{
    if n <= 0 {
        seq![]
    } else {
        spawn_rows(file, points, n - 1) + spawn_row(file, points[n - 1])
    }
}

/// The rows of the spawn points of the first `n` files.
pub open spec fn all_spawn_rows(spawns: Seq<FileSpawnsText>, n: int) -> Seq<char>
    decreases n,
{
    if n <= 0 {
        seq![]
    } else {
        all_spawn_rows(spawns, n - 1) + spawn_rows(
            spawns[n - 1].file.text,
            spawns[n - 1].points,
            spawns[n - 1].points.len() as int,
        )
    }
}

/// The table of spawn points; nothing where there are none.
pub open spec fn page_spawns(spawns: Seq<FileSpawnsText>) -> Seq<char> {
    if any_spawns(spawns) {
        "<section><h2>Execution tree discovered</h2><table class=\"spawns\">"@
            + "<tr><th>File</th><th>Line</th><th>Kind</th><th>Code</th></tr>"@ + all_spawn_rows(
            spawns,
            spawns.len() as int,
        ) + "</table></section>"@
    } else {
        seq![]
    }
}

/// The block of a finding.
pub open spec fn finding_block(f: FindingText) -> Seq<char> {
    "<div class=\"finding "@ + severity_style(f.severity)
        + "\"><div class=\"finding-head\"><span class=\"badge "@ + severity_style(f.severity)
        + "\">"@ + severity_text(f.severity) + "</span><span class=\"loc\">line "@ + decimal(
        f.line as nat,
    ) + "</span><span class=\"func mono\">"@ + escaped(function_label(f.function))
        + "</span><span class=\"category\">"@ + escaped(f.category)
        + "</span></div><p class=\"message\">"@ + escaped(f.message) + "</p></div>"@
}

/// The blocks of those of the first `n` findings that are on a file.
pub open spec fn finding_blocks(findings: Seq<FindingText>, file: PathText, n: int) -> Seq<char>
    decreases n,
{
    if n <= 0 {
        seq![]
    } else if same_path(findings[n - 1].file, file) {
        finding_blocks(findings, file, n - 1) + finding_block(findings[n - 1])
    } else {
        finding_blocks(findings, file, n - 1)
    }
}

/// The findings on the first `n` files, file by file.
pub open spec fn file_blocks(
    findings: Seq<FindingText>,
    files: Seq<PathText>,
    n: int,
) -> Seq<char>
    decreases n,
{
    if n <= 0 {
        seq![]
    } else {
        file_blocks(findings, files, n - 1) + "<h3 class=\"filename mono\">"@ + escaped(
            files[n - 1].text,
        ) + "</h3><div class=\"findings\">"@ + finding_blocks(
            findings,
            files[n - 1],
            findings.len() as int,
        ) + "</div>"@
    }
}

/// The findings of the page.
pub open spec fn page_findings(findings: Seq<FindingText>) -> Seq<char> {
    "<section><h2>Findings</h2>"@ + (if findings.len() == 0 {
        "<p class=\"empty\">No suspicious patterns found. 🎉</p>"@
    } else {
        let files = files_with_findings(findings);
        file_blocks(findings, files, files.len() as int)
    }) + "</section>"@
}

/// The rows of the first `n` keys of a summary.
pub open spec fn summary_rows(counts: Seq<(Seq<char>, nat)>, n: int) -> Seq<char>
    decreases n,
{
    if n <= 0 {
        seq![]
    } else {
        summary_rows(counts, n - 1) + "<tr><td class=\"mono\">"@ + escaped(counts[n - 1].0)
            + "</td><td>"@ + decimal(counts[n - 1].1) + "</td></tr>"@
    }
}

/// The summary of the page; nothing where there are no findings.
pub open spec fn page_summary(findings: Seq<FindingText>) -> Seq<char> {
    if findings.len() == 0 {
        seq![]
    } else {
        let counts = summary(findings);
        "<section><h2>Summary by function</h2><table class=\"summary\">"@
            + "<tr><th>File :: Function</th><th>Issues</th></tr>"@ + summary_rows(
            counts,
            counts.len() as int,
        ) + "</table></section>"@
    }
}

/// The foot of the page.
pub open spec fn page_foot() -> Seq<char> {
    "<footer><p>Static pattern-matching, not execution — findings are suspects for review, not proven leaks.</p></footer>"@
        + "</body></html>"@
}

/// The page that shows a scan.
pub open spec fn page(
    findings: Seq<FindingText>,
    spawns: Seq<FileSpawnsText>,
    files_scanned: nat,
    root: Seq<char>,
) -> Seq<char> {
    page_head(root) + page_stats(findings, files_scanned) + page_spawns(spawns) + page_findings(
        findings,
    ) + page_summary(findings) + page_foot()
}

proof fn lemma_spawn_rows(file: Seq<char>, points: Seq<SpawnText>, n: int, j: int)
    requires
        0 <= j < n <= points.len(),
    ensures
        occurs(spawn_rows(file, points, n), spawn_row(file, points[j])),
    decreases n,
{
    let row = spawn_row(file, points[j]);
    if j < n - 1 {
        lemma_spawn_rows(file, points, n - 1, j);
    } else {
        lemma_occurs_itself(row);
    }
    law_occurs_in_both(
        spawn_rows(file, points, n - 1),
        spawn_row(file, points[n - 1]),
        row,
    );
}

proof fn lemma_all_spawn_rows(spawns: Seq<FileSpawnsText>, n: int, i: int, j: int)
    requires
        0 <= i < n <= spawns.len(),
        0 <= j < spawns[i].points.len(),
    ensures
        occurs(all_spawn_rows(spawns, n), spawn_row(spawns[i].file.text, spawns[i].points[j])),
    decreases n,
{
    let row = spawn_row(spawns[i].file.text, spawns[i].points[j]);
    let last = spawns[n - 1];
    let count = last.points.len() as int;
    if i < n - 1 {
        lemma_all_spawn_rows(spawns, n - 1, i, j);
    } else {
        lemma_spawn_rows(last.file.text, last.points, count, j);
    }
    law_occurs_in_both(
        all_spawn_rows(spawns, n - 1),
        spawn_rows(last.file.text, last.points, count),
        row,
    );
}

proof fn lemma_occurs_itself(s: Seq<char>)
    ensures
        occurs(s, s),
{
    assert(s.subrange(0, s.len() as int) =~= s);
    assert(stands_at(s, s, 0));
}

/// What stands in a section of the page stands in the page.
proof fn lemma_in_page(
    findings: Seq<FindingText>,
    spawns: Seq<FileSpawnsText>,
    files_scanned: nat,
    root: Seq<char>,
    part: Seq<char>,
)
    ensures
        occurs(page_spawns(spawns), part) ==> occurs(
            page(findings, spawns, files_scanned, root),
            part,
        ),
        occurs(page_findings(findings), part) ==> occurs(
            page(findings, spawns, files_scanned, root),
            part,
        ),
{
    let s1 = page_head(root) + page_stats(findings, files_scanned);
    let s2 = s1 + page_spawns(spawns);
    let s3 = s2 + page_findings(findings);
    let s4 = s3 + page_summary(findings);
    law_occurs_in_both(s1, page_spawns(spawns), part);
    law_occurs_in_both(s2, page_findings(findings), part);
    law_occurs_in_both(s3, page_summary(findings), part);
    law_occurs_in_both(s4, page_foot(), part);
}

/// The page shows every spawn point of every file.
pub proof fn law_page_shows_every_spawn(
    findings: Seq<FindingText>,
    spawns: Seq<FileSpawnsText>,
    files_scanned: nat,
    root: Seq<char>,
    i: int,
    j: int,
)
    requires
        0 <= i < spawns.len(),
        0 <= j < spawns[i].points.len(),
    ensures
        occurs(
            page(findings, spawns, files_scanned, root),
            spawn_row(spawns[i].file.text, spawns[i].points[j]),
        ),
{
    let row = spawn_row(spawns[i].file.text, spawns[i].points[j]);
    let n = spawns.len() as int;
    lemma_all_spawn_rows(spawns, n, i, j);
    assert(any_spawns(spawns));
    let head = "<section><h2>Execution tree discovered</h2><table class=\"spawns\">"@
        + "<tr><th>File</th><th>Line</th><th>Kind</th><th>Code</th></tr>"@;
    law_occurs_in_both(head, all_spawn_rows(spawns, n), row);
    law_occurs_in_both(head + all_spawn_rows(spawns, n), "</table></section>"@, row);
    lemma_in_page(findings, spawns, files_scanned, root, row);
}

proof fn lemma_finding_blocks(findings: Seq<FindingText>, file: PathText, n: int, i: int)
    requires
        0 <= i < n <= findings.len(),
        same_path(findings[i].file, file),
    ensures
        occurs(finding_blocks(findings, file, n), finding_block(findings[i])),
    decreases n,
{
    let block = finding_block(findings[i]);
    if i < n - 1 {
        lemma_finding_blocks(findings, file, n - 1, i);
    } else {
        lemma_occurs_itself(block);
    }
    law_occurs_in_both(
        finding_blocks(findings, file, n - 1),
        finding_block(findings[n - 1]),
        block,
    );
}

proof fn lemma_file_blocks(
    findings: Seq<FindingText>,
    files: Seq<PathText>,
    n: int,
    k: int,
    i: int,
)
    requires
        0 <= k < n <= files.len(),
        0 <= i < findings.len(),
        same_path(findings[i].file, files[k]),
    ensures
        occurs(file_blocks(findings, files, n), finding_block(findings[i])),
    decreases n,
{
    let block = finding_block(findings[i]);
    let before = file_blocks(findings, files, n - 1);
    let s1 = before + "<h3 class=\"filename mono\">"@;
    let s2 = s1 + escaped(files[n - 1].text);
    let s3 = s2 + "</h3><div class=\"findings\">"@;
    let blocks = finding_blocks(findings, files[n - 1], findings.len() as int);
    if k < n - 1 {
        lemma_file_blocks(findings, files, n - 1, k, i);
        law_occurs_in_both(before, "<h3 class=\"filename mono\">"@, block);
        law_occurs_in_both(s1, escaped(files[n - 1].text), block);
        law_occurs_in_both(s2, "</h3><div class=\"findings\">"@, block);
    } else {
        lemma_finding_blocks(findings, files[n - 1], findings.len() as int, i);
    }
    law_occurs_in_both(s3, blocks, block);
    law_occurs_in_both(s3 + blocks, "</div>"@, block);
}

/// The page shows every finding.
pub proof fn law_page_shows_every_finding(
    findings: Seq<FindingText>,
    spawns: Seq<FileSpawnsText>,
    files_scanned: nat,
    root: Seq<char>,
    i: int,
)
    requires
        0 <= i < findings.len(),
    ensures
        occurs(page(findings, spawns, files_scanned, root), finding_block(findings[i])),
{
    let block = finding_block(findings[i]);
    let files = files_with_findings(findings);
    law_nothing_is_left_out(findings, i);
    let k = choose|k: int| 0 <= k < files.len() && same_path(#[trigger] files[k], findings[i].file);
    lemma_file_blocks(findings, files, files.len() as int, k, i);
    let blocks = file_blocks(findings, files, files.len() as int);
    law_occurs_in_both("<section><h2>Findings</h2>"@, blocks, block);
    law_occurs_in_both("<section><h2>Findings</h2>"@ + blocks, "</section>"@, block);
    lemma_in_page(findings, spawns, files_scanned, root, block);
}

fn make_page_head(root: &str) -> (r: String)
    ensures
        r@ == page_head(root@),
{
    let mut r = String::from_str(
        "<!DOCTYPE html><html lang=\"en\"><head><meta charset=\"UTF-8\">",
    );
    r.append("<title>pyleak report</title><style>");
    r.append(CSS);
    r.append("</style></head><body>");
    r.append(
        "<header><h1>pyleak</h1><p class=\"subtitle\">static memory-leak report for <code>",
    );
    r.append(&esc(root));
    r.append("</code></p></header>");
    r
}

fn make_stat(class: &str, count: usize, label: &str) -> (r: String)
    ensures
        r@ == stat(class@, count as nat, label@),
{
    let mut r = String::from_str("<div class=\"");
    r.append(class);
    r.append("\"><span class=\"stat-num\">");
    r.append(&decimal_text(count as u128));
    r.append("</span><span class=\"stat-label\">");
    r.append(label);
    r.append("</span></div>");
    r
}

fn make_page_stats(findings: &[Finding], files_scanned: usize) -> (r: String)
    ensures
        r@ == page_stats(finding_texts(findings@), files_scanned as nat),
{
    let mut r = String::from_str("<section class=\"stats\">");
    r.append(&make_stat("stat", files_scanned, "files scanned"));
    r.append(&make_stat("stat", findings.len(), "total issues"));
    r.append(&make_stat("stat sev-high-bg", count_severity(findings, Severity::High), "high"));
    r.append(&make_stat("stat sev-med-bg", count_severity(findings, Severity::Medium), "medium"));
    r.append(&make_stat("stat sev-low-bg", count_severity(findings, Severity::Low), "low"));
    r.append("</section>");
    r
}

fn make_spawn_row(file: &str, p: &SpawnPoint) -> (r: String)
    ensures
        r@ == spawn_row(file@, p@),
{
    let mut r = String::from_str("<tr><td class=\"mono\">");
    r.append(&esc(file));
    r.append("</td><td>");
    r.append(&decimal_text(p.line as u128 + 1));
    r.append("</td><td><span class=\"tag ");
    r.append(spawn_tag_class(&p.kind));
    r.append("\">");
    r.append(spawn_tag_label(&p.kind));
    r.append("</span></td><td class=\"mono\">");
    r.append(&esc(&p.raw));
    r.append("</td></tr>");
    r
}

fn make_spawn_rows(spawns: &FileSpawns) -> (r: String)
    ensures
        r@ == spawn_rows(spawns@.file.text, spawns@.points, spawns@.points.len() as int),
{
    let ghost points = spawn_texts(spawns.points@);
    let mut r = String::new();
    let mut i: usize = 0;
    while i < spawns.points.len()
        invariant
            i <= spawns.points@.len(),
            points == spawn_texts(spawns.points@),
            r@ == spawn_rows(spawns.file.text@, points, i as int),
        decreases spawns.points@.len() - i,
    {
        assert(points[i as int] == spawns.points@[i as int]@);
        r.append(&make_spawn_row(&spawns.file.text, &spawns.points[i]));
        i = i + 1;
    }
    r
}

fn make_page_spawns(spawns: &Vec<FileSpawns>) -> (r: String)
    ensures
        r@ == page_spawns(file_spawns(spawns@)),
{
    if !has_spawns(spawns) {
        return String::new();
    }
    let ghost all = file_spawns(spawns@);
    let mut rows = String::new();
    let mut i: usize = 0;
    while i < spawns.len()
        invariant
            i <= spawns@.len(),
            all == file_spawns(spawns@),
            rows@ == all_spawn_rows(all, i as int),
        decreases spawns@.len() - i,
    {
        assert(all[i as int] == spawns@[i as int]@);
        rows.append(&make_spawn_rows(&spawns[i]));
        i = i + 1;
    }
    let mut r = String::from_str(
        "<section><h2>Execution tree discovered</h2><table class=\"spawns\">",
    );
    r.append("<tr><th>File</th><th>Line</th><th>Kind</th><th>Code</th></tr>");
    r.append(&rows);
    r.append("</table></section>");
    r
}

fn make_finding_block(f: &Finding) -> (r: String)
    ensures
        r@ == finding_block(f@),
{
    let mut r = String::from_str("<div class=\"finding ");
    r.append(severity_class(&f.severity));
    r.append("\"><div class=\"finding-head\"><span class=\"badge ");
    r.append(severity_class(&f.severity));
    r.append("\">");
    r.append(f.severity.text());
    r.append("</span><span class=\"loc\">line ");
    r.append(&decimal_text(f.line as u128));
    r.append("</span><span class=\"func mono\">");
    r.append(&esc(&make_function_label(&f.function)));
    r.append("</span><span class=\"category\">");
    r.append(&esc(f.category));
    r.append("</span></div><p class=\"message\">");
    r.append(&esc(&f.message));
    r.append("</p></div>");
    r
}

fn is_on(finding: &Finding, file: &FilePath) -> (r: bool)
    ensures
        r == same_path(finding@.file, file@),
{
    match path_side(&finding.file, file) {
        Side::Same => true,
        _ => false,
    }
}

fn make_finding_blocks(findings: &[Finding], file: &FilePath) -> (r: String)
    ensures
        r@ == finding_blocks(finding_texts(findings@), file@, findings@.len() as int),
{
    let ghost all = finding_texts(findings@);
    let mut r = String::new();
    let mut i: usize = 0;
    while i < findings.len()
        invariant
            i <= findings@.len(),
            all == finding_texts(findings@),
            r@ == finding_blocks(all, file@, i as int),
        decreases findings@.len() - i,
    {
        assert(all[i as int] == findings@[i as int]@);
        if is_on(&findings[i], file) {
            r.append(&make_finding_block(&findings[i]));
        }
        i = i + 1;
    }
    r
}

fn make_page_findings(findings: &[Finding]) -> (r: String)
    ensures
        r@ == page_findings(finding_texts(findings@)),
{
    let mut blocks = String::new();
    if findings.len() == 0 {
        blocks.append("<p class=\"empty\">No suspicious patterns found. 🎉</p>");
        assert(blocks@ =~= "<p class=\"empty\">No suspicious patterns found. 🎉</p>"@);
    } else {
        let ghost all = finding_texts(findings@);
        let files = collect_files(findings);
        let ghost paths = path_texts(files@);
        let mut i: usize = 0;
        while i < files.len()
            invariant
                i <= files@.len(),
                all == finding_texts(findings@),
                paths == path_texts(files@),
                blocks@ == file_blocks(all, paths, i as int),
            decreases files@.len() - i,
        {
            assert(paths[i as int] == files@[i as int]@);
            blocks.append("<h3 class=\"filename mono\">");
            blocks.append(&esc(&files[i].text));
            blocks.append("</h3><div class=\"findings\">");
            blocks.append(&make_finding_blocks(findings, &files[i]));
            blocks.append("</div>");
            i = i + 1;
        }
    }
    let mut r = String::from_str("<section><h2>Findings</h2>");
    r.append(&blocks);
    r.append("</section>");
    r
}

fn make_page_summary(findings: &[Finding]) -> (r: String)
    ensures
        r@ == page_summary(finding_texts(findings@)),
{
    if findings.len() == 0 {
        return String::new();
    }
    let counts = make_summary(findings);
    let ghost all = text_counts(counts@);
    let mut rows = String::new();
    let mut i: usize = 0;
    while i < counts.len()
        invariant
            i <= counts@.len(),
            all == text_counts(counts@),
            rows@ == summary_rows(all, i as int),
        decreases counts@.len() - i,
    {
        assert(all[i as int] == (counts@[i as int].0@, counts@[i as int].1 as nat));
        rows.append("<tr><td class=\"mono\">");
        rows.append(&esc(&counts[i].0));
        rows.append("</td><td>");
        rows.append(&decimal_text(counts[i].1 as u128));
        rows.append("</td></tr>");
        i = i + 1;
    }
    let mut r = String::from_str("<section><h2>Summary by function</h2><table class=\"summary\">");
    r.append("<tr><th>File :: Function</th><th>Issues</th></tr>");
    r.append(&rows);
    r.append("</table></section>");
    r
}

/// Renders a single self-contained page (inline style, no external assets, no script) that
/// summarizes the scan.
pub fn html_report(
    findings: &[Finding],
    spawns: &SpawnMap,
    files_scanned: usize,
    root: &str,
) -> (r: String)
    ensures
        r@ == page(finding_texts(findings@), spawns@, files_scanned as nat, root@),
{
    let mut r = make_page_head(root);
    r.append(&make_page_stats(findings, files_scanned));
    r.append(&make_page_spawns(spawns.entries()));
    r.append(&make_page_findings(findings));
    r.append(&make_page_summary(findings));
    let mut foot = String::from_str(
        "<footer><p>Static pattern-matching, not execution — findings are suspects for review, not proven leaks.</p></footer>",
    );
    foot.append("</body></html>");
    r.append(&foot);
    r
}

// ---- the terminal --------------------------------------------------------------------------

/// How a piece of text looks on a terminal.
#[derive(Debug, Clone, Copy, PartialEq, Eq, Structural)]
pub enum Paint {
    Plain,
    BoldUnderlined,
    Bold,
    Dimmed,
    Cyan,
    Magenta,
    BoldGreen,
    BoldRed,
    BoldYellow,
}

/// A piece of text and how it looks.
#[derive(Debug)]
pub struct Piece {
    pub paint: Paint,
    pub text: String,
}

/// What a piece says.
pub struct PieceText {
    pub paint: Paint,
    pub text: Seq<char>,
}

impl View for Piece {
    type V = PieceText;

    open spec fn view(&self) -> PieceText {
        PieceText { paint: self.paint, text: self.text@ }
    }
}

/// What pieces say.
pub open spec fn piece_texts(s: Seq<Piece>) -> Seq<PieceText> {
    Seq::new(s.len(), |i: int| s[i]@)
}

/// A piece of text that looks as it says.
pub open spec fn painted(paint: Paint, text: Seq<char>) -> Seq<PieceText> {
    seq![PieceText { paint, text }]
}

fn put(pieces: &mut Vec<Piece>, paint: Paint, text: &str)
    ensures
        piece_texts(final(pieces)@) == piece_texts(old(pieces)@) + painted(paint, text@),
{
    pieces.push(Piece { paint, text: String::from_str(text) });
    assert(piece_texts(pieces@) =~= piece_texts(old(pieces)@) + painted(paint, text@));
}

/// How a kind of spawn point looks.
pub open spec fn spawn_paint(kind: SpawnKind) -> Paint {
    match kind {
        SpawnKind::Import => Paint::Dimmed,
        _ => Paint::Cyan,
    }
}

/// How a severity looks.
pub open spec fn severity_paint(severity: Severity) -> Paint {
    match severity {
        Severity::High => Paint::BoldRed,
        Severity::Medium => Paint::BoldYellow,
        Severity::Low => Paint::Plain,
    }
}

/// The line of a spawn point.
pub open spec fn spawn_line(file: Seq<char>, p: SpawnText) -> Seq<PieceText> {
    painted(Paint::Plain, "  "@ + file + ":"@ + decimal((p.line + 1) as nat) + "  ["@) + painted(
        spawn_paint(p.kind),
        spawn_word(p.kind),
    ) + painted(Paint::Plain, "]  "@ + p.raw + "\n"@)
}

/// The lines of the first `n` spawn points of a file.
pub open spec fn spawn_lines(file: Seq<char>, points: Seq<SpawnText>, n: int) -> Seq<PieceText>
    decreases n,
{
    if n <= 0 {
        seq![]
    } else {
        spawn_lines(file, points, n - 1) + spawn_line(file, points[n - 1])
    }
}

/// The lines of the spawn points of the first `n` files.
pub open spec fn all_spawn_lines(spawns: Seq<FileSpawnsText>, n: int) -> Seq<PieceText>
    decreases n,
{
    if n <= 0 {
        seq![]
    } else {
        all_spawn_lines(spawns, n - 1) + spawn_lines(
            spawns[n - 1].file.text,
            spawns[n - 1].points,
            spawns[n - 1].points.len() as int,
        )
    }
}

/// The list of spawn points; nothing where there are none.
pub open spec fn text_spawns(spawns: Seq<FileSpawnsText>) -> Seq<PieceText> {
    if any_spawns(spawns) {
        painted(Paint::Bold, "Execution tree discovered:"@) + painted(Paint::Plain, "\n"@)
            + all_spawn_lines(spawns, spawns.len() as int) + painted(Paint::Plain, "\n"@)
    } else {
        seq![]
    }
}

/// The lines of a finding.
pub open spec fn finding_lines(f: FindingText) -> Seq<PieceText> {
    painted(Paint::Plain, "  ["@) + painted(severity_paint(f.severity), severity_text(f.severity))
        + painted(Paint::Plain, "] line "@ + padded(decimal(f.line as nat), 5) + " "@) + painted(
        Paint::Magenta,
        padded(function_label(f.function), 28),
    ) + painted(Paint::Plain, " "@ + f.category + "\n        "@ + f.message + "\n"@)
}

/// The lines of those of the first `n` findings that are on a file.
pub open spec fn findings_on(findings: Seq<FindingText>, file: PathText, n: int) -> Seq<PieceText>
    decreases n,
{
    if n <= 0 {
        seq![]
    } else if same_path(findings[n - 1].file, file) {
        findings_on(findings, file, n - 1) + finding_lines(findings[n - 1])
    } else {
        findings_on(findings, file, n - 1)
    }
}

/// The findings on the first `n` files, file by file.
pub open spec fn findings_by_file(
    findings: Seq<FindingText>,
    files: Seq<PathText>,
    n: int,
) -> Seq<PieceText>
    decreases n,
{
    if n <= 0 {
        seq![]
    } else {
        findings_by_file(findings, files, n - 1) + painted(
            Paint::BoldYellow,
            files[n - 1].text,
        ) + painted(Paint::Plain, "\n"@) + findings_on(
            findings,
            files[n - 1],
            findings.len() as int,
        ) + painted(Paint::Plain, "\n"@)
    }
}

/// The lines of the first `n` keys of a summary.
pub open spec fn summary_lines(counts: Seq<(Seq<char>, nat)>, n: int) -> Seq<PieceText>
    decreases n,
{
    if n <= 0 {
        seq![]
    } else {
        summary_lines(counts, n - 1) + painted(
            Paint::Plain,
            "  - "@ + counts[n - 1].0 + "  ("@ + decimal(counts[n - 1].1) + " issue(s))\n"@,
        )
    }
}

/// The head of the text.
pub open spec fn text_head(files_scanned: nat, root: Seq<char>) -> Seq<PieceText> {
    painted(Paint::Plain, "\n"@) + painted(
        Paint::BoldUnderlined,
        "pyleak — static memory-leak report for "@ + root,
    ) + painted(Paint::Plain, "\n"@ + decimal(files_scanned) + " python file(s) scanned\n\n"@)
}

/// What the text says of the findings.
pub open spec fn text_findings(findings: Seq<FindingText>) -> Seq<PieceText> {
    if findings.len() == 0 {
        painted(Paint::BoldGreen, "No suspicious patterns found. 🎉"@) + painted(
            Paint::Plain,
            "\n"@,
        ) + painted(
            Paint::Dimmed,
            "(this is a static heuristic scan, not a guarantee — see notes below)"@,
        ) + painted(Paint::Plain, "\n"@)
    } else {
        let files = files_with_findings(findings);
        let counts = summary(findings);
        painted(Paint::BoldRed, decimal(findings.len()) + " potential issue(s) found:\n"@)
            + painted(Paint::Plain, "\n"@) + findings_by_file(findings, files, files.len() as int)
            + painted(Paint::Bold, "Summary by function:"@) + painted(Paint::Plain, "\n"@)
            + summary_lines(counts, counts.len() as int) + painted(Paint::Plain, "\n"@) + painted(
            Paint::Dimmed,
            "Note: this is static pattern-matching, not execution — it flags suspects for review, not proven leaks."@,
        ) + painted(Paint::Plain, "\n"@)
    }
}

/// The text that shows a scan.
pub open spec fn terminal_text(
    findings: Seq<FindingText>,
    spawns: Seq<FileSpawnsText>,
    files_scanned: nat,
    root: Seq<char>,
) -> Seq<PieceText> {
    text_head(files_scanned, root) + text_spawns(spawns) + text_findings(findings)
}

fn put_spawn_line(pieces: &mut Vec<Piece>, file: &str, p: &SpawnPoint)
    ensures
        piece_texts(final(pieces)@) == piece_texts(old(pieces)@) + spawn_line(file@, p@),
{
    let ghost start = piece_texts(pieces@);
    let mut place = String::from_str("  ");
    place.append(file);
    place.append(":");
    place.append(&decimal_text(p.line as u128 + 1));
    place.append("  [");
    put(pieces, Paint::Plain, &place);
    let paint = match p.kind {
        SpawnKind::Import => Paint::Dimmed,
        _ => Paint::Cyan,
    };
    put(pieces, paint, spawn_tag_label(&p.kind));
    let mut code = String::from_str("]  ");
    code.append(&p.raw);
    code.append("\n");
    put(pieces, Paint::Plain, &code);
    assert(piece_texts(pieces@) =~= start + spawn_line(file@, p@));
}

fn put_spawns(pieces: &mut Vec<Piece>, spawns: &Vec<FileSpawns>)
    ensures
        piece_texts(final(pieces)@) == piece_texts(old(pieces)@) + text_spawns(
            file_spawns(spawns@),
        ),
{
    let ghost start = piece_texts(pieces@);
    let ghost all = file_spawns(spawns@);
    if !has_spawns(spawns) {
        assert(start + text_spawns(all) =~= start);
        return;
    }
    put(pieces, Paint::Bold, "Execution tree discovered:");
    put(pieces, Paint::Plain, "\n");
    let ghost head = painted(Paint::Bold, "Execution tree discovered:"@) + painted(
        Paint::Plain,
        "\n"@,
    );
    let mut i: usize = 0;
    assert(piece_texts(pieces@) =~= start + (head + all_spawn_lines(all, 0)));
    while i < spawns.len()
        invariant
            i <= spawns@.len(),
            all == file_spawns(spawns@),
            piece_texts(pieces@) == start + (head + all_spawn_lines(all, i as int)),
        decreases spawns@.len() - i,
    {
        assert(all[i as int] == spawns@[i as int]@);
        let ghost points = spawn_texts(spawns@[i as int].points@);
        let ghost file = spawns@[i as int].file.text@;
        let ghost before = piece_texts(pieces@);
        let mut k: usize = 0;
        assert(piece_texts(pieces@) =~= before + spawn_lines(file, points, 0));
        while k < spawns[i].points.len()
            invariant
                i < spawns@.len(),
                k <= spawns@[i as int].points@.len(),
                points == spawn_texts(spawns@[i as int].points@),
                file == spawns@[i as int].file.text@,
                piece_texts(pieces@) == before + spawn_lines(file, points, k as int),
            decreases spawns@[i as int].points@.len() - k,
        {
            assert(points[k as int] == spawns@[i as int].points@[k as int]@);
            put_spawn_line(pieces, &spawns[i].file.text, &spawns[i].points[k]);
            k = k + 1;
            assert(piece_texts(pieces@) =~= before + spawn_lines(file, points, k as int));
        }
        i = i + 1;
        assert(piece_texts(pieces@) =~= start + (head + all_spawn_lines(all, i as int)));
    }
    put(pieces, Paint::Plain, "\n");
    assert(piece_texts(pieces@) =~= start + text_spawns(all));
}

fn put_finding(pieces: &mut Vec<Piece>, f: &Finding)
    ensures
        piece_texts(final(pieces)@) == piece_texts(old(pieces)@) + finding_lines(f@),
{
    let ghost start = piece_texts(pieces@);
    put(pieces, Paint::Plain, "  [");
    let paint = match f.severity {
        Severity::High => Paint::BoldRed,
        Severity::Medium => Paint::BoldYellow,
        Severity::Low => Paint::Plain,
    };
    put(pieces, paint, f.severity.text());
    let mut place = String::from_str("] line ");
    place.append(&pad_right(&decimal_text(f.line as u128), 5));
    place.append(" ");
    put(pieces, Paint::Plain, &place);
    put(pieces, Paint::Magenta, &pad_right(&make_function_label(&f.function), 28));
    let mut what = String::from_str(" ");
    what.append(f.category);
    what.append("\n        ");
    what.append(&f.message);
    what.append("\n");
    put(pieces, Paint::Plain, &what);
    assert(piece_texts(pieces@) =~= start + finding_lines(f@));
}

fn put_findings_on(pieces: &mut Vec<Piece>, findings: &[Finding], file: &FilePath)
    ensures
        piece_texts(final(pieces)@) == piece_texts(old(pieces)@) + findings_on(
            finding_texts(findings@),
            file@,
            findings@.len() as int,
        ),
{
    let ghost start = piece_texts(pieces@);
    let ghost all = finding_texts(findings@);
    let mut i: usize = 0;
    assert(piece_texts(pieces@) =~= start + findings_on(all, file@, 0));
    while i < findings.len()
        invariant
            i <= findings@.len(),
            all == finding_texts(findings@),
            piece_texts(pieces@) == start + findings_on(all, file@, i as int),
        decreases findings@.len() - i,
    {
        assert(all[i as int] == findings@[i as int]@);
        if is_on(&findings[i], file) {
            put_finding(pieces, &findings[i]);
        }
        i = i + 1;
        assert(piece_texts(pieces@) =~= start + findings_on(all, file@, i as int));
    }
}

fn put_findings_by_file(pieces: &mut Vec<Piece>, findings: &[Finding])
    ensures
        piece_texts(final(pieces)@) == piece_texts(old(pieces)@) + findings_by_file(
            finding_texts(findings@),
            files_with_findings(finding_texts(findings@)),
            files_with_findings(finding_texts(findings@)).len() as int,
        ),
{
    let ghost start = piece_texts(pieces@);
    let ghost all = finding_texts(findings@);
    let files = collect_files(findings);
    let ghost paths = path_texts(files@);
    let mut i: usize = 0;
    assert(piece_texts(pieces@) =~= start + findings_by_file(all, paths, 0));
    while i < files.len()
        invariant
            i <= files@.len(),
            all == finding_texts(findings@),
            paths == path_texts(files@),
            piece_texts(pieces@) == start + findings_by_file(all, paths, i as int),
        decreases files@.len() - i,
    {
        assert(paths[i as int] == files@[i as int]@);
        put(pieces, Paint::BoldYellow, &files[i].text);
        put(pieces, Paint::Plain, "\n");
        put_findings_on(pieces, findings, &files[i]);
        put(pieces, Paint::Plain, "\n");
        i = i + 1;
        assert(piece_texts(pieces@) =~= start + findings_by_file(all, paths, i as int));
    }
}

fn put_summary(pieces: &mut Vec<Piece>, findings: &[Finding])
    ensures
        piece_texts(final(pieces)@) == piece_texts(old(pieces)@) + summary_lines(
            summary(finding_texts(findings@)),
            summary(finding_texts(findings@)).len() as int,
        ),
{
    let ghost start = piece_texts(pieces@);
    let counts = make_summary(findings);
    let ghost all = text_counts(counts@);
    let mut i: usize = 0;
    assert(piece_texts(pieces@) =~= start + summary_lines(all, 0));
    while i < counts.len()
        invariant
            i <= counts@.len(),
            all == text_counts(counts@),
            piece_texts(pieces@) == start + summary_lines(all, i as int),
        decreases counts@.len() - i,
    {
        assert(all[i as int] == (counts@[i as int].0@, counts@[i as int].1 as nat));
        let mut line = String::from_str("  - ");
        line.append(&counts[i].0);
        line.append("  (");
        line.append(&decimal_text(counts[i].1 as u128));
        line.append(" issue(s))\n");
        put(pieces, Paint::Plain, &line);
        i = i + 1;
        assert(piece_texts(pieces@) =~= start + summary_lines(all, i as int));
    }
}

fn put_text_findings(pieces: &mut Vec<Piece>, findings: &[Finding])
    ensures
        piece_texts(final(pieces)@) == piece_texts(old(pieces)@) + text_findings(
            finding_texts(findings@),
        ),
{
    let ghost start = piece_texts(pieces@);
    let ghost all = finding_texts(findings@);
    if findings.len() == 0 {
        put(pieces, Paint::BoldGreen, "No suspicious patterns found. 🎉");
        put(pieces, Paint::Plain, "\n");
        put(
            pieces,
            Paint::Dimmed,
            "(this is a static heuristic scan, not a guarantee — see notes below)",
        );
        put(pieces, Paint::Plain, "\n");
        assert(piece_texts(pieces@) =~= start + text_findings(all));
        return;
    }
    let mut head = decimal_text(findings.len() as u128);
    head.append(" potential issue(s) found:\n");
    put(pieces, Paint::BoldRed, &head);
    put(pieces, Paint::Plain, "\n");
    put_findings_by_file(pieces, findings);
    put(pieces, Paint::Bold, "Summary by function:");
    put(pieces, Paint::Plain, "\n");
    put_summary(pieces, findings);
    put(pieces, Paint::Plain, "\n");
    put(
        pieces,
        Paint::Dimmed,
        "Note: this is static pattern-matching, not execution — it flags suspects for review, not proven leaks.",
    );
    put(pieces, Paint::Plain, "\n");
    assert(piece_texts(pieces@) =~= start + text_findings(all));
}

/// The report on a scan as a terminal shows it, piece by piece.
pub fn text_report(
    findings: &[Finding],
    spawns: &SpawnMap,
    files_scanned: usize,
    root: &str,
) -> (r: Vec<Piece>)
    ensures
        piece_texts(r@) == terminal_text(
            finding_texts(findings@),
            spawns@,
            files_scanned as nat,
            root@,
        ),
{
    let mut pieces: Vec<Piece> = Vec::new();
    put(&mut pieces, Paint::Plain, "\n");
    let mut title = String::from_str("pyleak — static memory-leak report for ");
    title.append(root);
    put(&mut pieces, Paint::BoldUnderlined, &title);
    let mut scanned = String::from_str("\n");
    scanned.append(&decimal_text(files_scanned as u128));
    scanned.append(" python file(s) scanned\n\n");
    put(&mut pieces, Paint::Plain, &scanned);
    assert(piece_texts(pieces@) =~= text_head(files_scanned as nat, root@));
    put_spawns(&mut pieces, spawns.entries());
    put_text_findings(&mut pieces, findings);
    pieces
}

/// The closing line of a run.
pub open spec fn closing_line(issues: nat, files: nat) -> Seq<char> {
    decimal(issues) + " issue(s) found across "@ + decimal(files) + " file(s)."@
}

/// The closing line of a run.
pub fn run_summary(issues: usize, files: usize) -> (r: String)
    ensures
        r@ == closing_line(issues as nat, files as nat),
{
    let mut r = decimal_text(issues as u128);
    r.append(" issue(s) found across ");
    r.append(&decimal_text(files as u128));
    r.append(" file(s).");
    r
}

// ---- what the reports show -----------------------------------------------------------------

/// How many of the first `n` findings are on a file.
pub open spec fn count_on(findings: Seq<FindingText>, file: PathText, n: int) -> nat
    decreases n,
{
    if n <= 0 {
        0
    } else {
        count_on(findings, file, n - 1) + if findings[n - 1].file.parts == file.parts {
            1nat
        } else {
            0nat
        }
    }
}

/// Where the section of file `k` starts among the sections of the files: each of those before it
/// takes a heading, two line breaks and five pieces for each finding on the file.
pub open spec fn section_start(
    findings: Seq<FindingText>,
    files: Seq<PathText>,
    k: int,
) -> nat
    decreases k,
{
    if k <= 0 {
        0
    } else {
        section_start(findings, files, k - 1) + 3 + 5 * count_on(
            findings,
            files[k - 1],
            findings.len() as int,
        )
    }
}

proof fn lemma_count_on_grows(findings: Seq<FindingText>, file: PathText, a: int, b: int)
    requires
        a <= b,
    ensures
        count_on(findings, file, a) <= count_on(findings, file, b),
    decreases b - a,
{
    if a < b {
        lemma_count_on_grows(findings, file, a, b - 1);
    }
}

proof fn lemma_findings_on(findings: Seq<FindingText>, file: PathText, n: int, i: int)
    requires
        0 <= i < findings.len(),
        0 <= n <= findings.len(),
    ensures
        findings_on(findings, file, n).len() == 5 * count_on(findings, file, n),
        i < n && findings[i].file.parts == file.parts ==> {
            let at = 5 * count_on(findings, file, i) as int;
            &&& at + 5 <= findings_on(findings, file, n).len()
            &&& findings_on(findings, file, n).subrange(at, at + 5) == finding_lines(findings[i])
        },
    decreases n,
{
    if n > 0 {
        lemma_findings_on(findings, file, n - 1, i);
        let fewer = findings_on(findings, file, n - 1);
        let all = findings_on(findings, file, n);
        let at = 5 * count_on(findings, file, i) as int;
        if i < n - 1 && findings[i].file.parts == file.parts {
            assert(all.subrange(at, at + 5) =~= fewer.subrange(at, at + 5));
        } else if i == n - 1 && findings[i].file.parts == file.parts {
            assert(all.subrange(at, at + 5) =~= finding_lines(findings[i]));
        }
    }
}

proof fn lemma_section(findings: Seq<FindingText>, files: Seq<PathText>, n: int, k: int)
    requires
        0 <= n <= files.len(),
        0 <= k < files.len(),
    ensures
        findings_by_file(findings, files, n).len() == section_start(findings, files, n),
        k < n ==> {
            let at = section_start(findings, files, k) as int;
            let on = findings_on(findings, files[k], findings.len() as int);
            let s = findings_by_file(findings, files, n);
            &&& at + on.len() + 3 <= s.len()
            &&& s[at] == PieceText { paint: Paint::BoldYellow, text: files[k].text }
            &&& s.subrange(at + 2, at + 2 + on.len()) == on
        },
    decreases n,
{
    if n > 0 {
        lemma_section(findings, files, n - 1, k);
        let fewer = findings_by_file(findings, files, n - 1);
        let s = findings_by_file(findings, files, n);
        let last = findings_on(findings, files[n - 1], findings.len() as int);
        if findings.len() > 0 {
            lemma_findings_on(findings, files[n - 1], findings.len() as int, 0);
            lemma_findings_on(findings, files[k], findings.len() as int, 0);
        }
        let at = section_start(findings, files, k) as int;
        let on = findings_on(findings, files[k], findings.len() as int);
        if k < n - 1 {
            assert(s[at] == fewer[at]);
            assert(s.subrange(at + 2, at + 2 + on.len()) =~= fewer.subrange(
                at + 2,
                at + 2 + on.len(),
            ));
        } else if k == n - 1 {
            assert(s.subrange(at + 2, at + 2 + on.len()) =~= on);
        }
    }
}

/// The text shows every finding, once for each time it is given. Its five pieces stand in the
/// section of its file, below the heading that names the file, behind those of the findings on
/// that file that are given before it. There are as many sections as files with findings.
pub proof fn law_text_shows_every_finding(
    findings: Seq<FindingText>,
    spawns: Seq<FileSpawnsText>,
    files_scanned: nat,
    root: Seq<char>,
    i: int,
) -> (k: int)
    requires
        0 <= i < findings.len(),
    ensures
        ({
            let files = files_with_findings(findings);
            let text = terminal_text(findings, spawns, files_scanned, root);
            let base = 5 + text_spawns(spawns).len();
            let heading = base + section_start(findings, files, k);
            let at = heading + 2 + 5 * count_on(findings, files[k], i);
            &&& 0 <= k < files.len()
            &&& files[k].parts == findings[i].file.parts
            &&& at + 5 <= base + section_start(findings, files, files.len() as int) <= text.len()
            &&& text[heading as int] == PieceText {
                paint: Paint::BoldYellow,
                text: files[k].text,
            }
            &&& text.subrange(at as int, at as int + 5) == finding_lines(findings[i])
        }),
{
    let files = files_with_findings(findings);
    law_nothing_is_left_out(findings, i);
    let k = choose|k: int| 0 <= k < files.len() && same_path(#[trigger] files[k], findings[i].file);
    let n = files.len() as int;
    let count = findings.len() as int;
    lemma_section(findings, files, n, k);
    lemma_findings_on(findings, files[k], count, i);
    let text = terminal_text(findings, spawns, files_scanned, root);
    let body = findings_by_file(findings, files, n);
    let on = findings_on(findings, files[k], count);
    let base = (5 + text_spawns(spawns).len()) as int;
    assert(text_head(files_scanned, root).len() == 3);
    assert(text.subrange(base, base + body.len()) =~= body) by {
        let head = text_head(files_scanned, root) + text_spawns(spawns);
        let found = text_findings(findings);
        assert(found.subrange(2, 2int + body.len()) =~= body);
        assert(text =~= head + found);
        assert forall|j: int| 0 <= j < body.len() implies text.subrange(
            base,
            base + body.len(),
        )[j] == body[j] by {
            assert(found.subrange(2, 2int + body.len())[j] == found[2 + j]);
            assert(text[base + j] == found[2 + j]);
        }
    }
    let start = section_start(findings, files, k) as int;
    let inner = 5 * count_on(findings, files[k], i) as int;
    let cut = text.subrange(base, base + body.len());
    assert(cut[start] == text[base + start]);
    let at = base + start + 2 + inner;
    assert(text.subrange(at, at + 5) =~= finding_lines(findings[i])) by {
        assert forall|j: int| 0 <= j < 5 implies text[at + j] == finding_lines(
            findings[i],
        )[j] by {
            assert(cut[start + 2 + inner + j] == text[at + j]);
            assert(body.subrange(start + 2, start + 2 + on.len())[inner + j] == body[start + 2
                + inner + j]);
            assert(on.subrange(inner, inner + 5)[j] == on[inner + j]);
        }
    }
    k
}

/// What is printed of a finding: its severity, its line, its function or the module, its
/// category and its message.
pub proof fn law_finding_lines(f: FindingText)
    requires
        f.line >= 0,
    ensures
        finding_lines(f).len() == 5,
        finding_lines(f)[1].text == severity_text(f.severity),
        finding_lines(f)[1].paint == severity_paint(f.severity),
        occurs(finding_lines(f)[2].text, decimal(f.line as nat)),
        f.function matches Some(name) ==> occurs(finding_lines(f)[3].text, name),
        f.function is None ==> occurs(finding_lines(f)[3].text, "module level"@),
        occurs(finding_lines(f)[4].text, f.category),
        occurs(finding_lines(f)[4].text, f.message),
{
    let number = decimal(f.line as nat);
    law_padded(number, 5);
    lemma_occurs_in_longer(number, padded(number, 5));
    law_occurs_in_both("] line "@, padded(number, 5), number);
    law_occurs_in_both("] line "@ + padded(number, 5), " "@, number);
    let label = function_label(f.function);
    law_padded(label, 28);
    lemma_occurs_in_longer(label, padded(label, 28));
    if let Some(name) = f.function {
        law_occurs("fn "@, name, "()"@, name);
        assert(label == "fn "@ + name + "()"@);
        lemma_occurs_through(padded(label, 28), label, name);
    }
    let s1 = " "@ + f.category;
    let s2 = s1 + "\n        "@;
    let s3 = s2 + f.message;
    lemma_occurs_itself(f.category);
    lemma_occurs_itself(f.message);
    law_occurs_in_both(" "@, f.category, f.category);
    law_occurs_in_both(s1, "\n        "@, f.category);
    law_occurs_in_both(s2, f.message, f.category);
    law_occurs_in_both(s2, f.message, f.message);
    law_occurs_in_both(s3, "\n"@, f.category);
    law_occurs_in_both(s3, "\n"@, f.message);
}

proof fn lemma_occurs_in_longer(s: Seq<char>, longer: Seq<char>)
    requires
        s.len() <= longer.len(),
        longer.take(s.len() as int) == s,
    ensures
        occurs(longer, s),
{
    assert(longer.subrange(0, s.len() as int) =~= longer.take(s.len() as int));
    assert(stands_at(longer, s, 0));
}

proof fn lemma_occurs_through(a: Seq<char>, b: Seq<char>, c: Seq<char>)
    requires
        occurs(a, b),
        occurs(b, c),
    ensures
        occurs(a, c),
{
    let i = choose|i: int| stands_at(a, b, i);
    let j = choose|j: int| stands_at(b, c, j);
    assert(a.subrange(i + j, i + j + c.len()) =~= c) by {
        assert forall|k: int| 0 <= k < c.len() implies a[i + j + k] == c[k] by {
            assert(a.subrange(i, i + b.len())[j + k] == a[i + j + k]);
            assert(b.subrange(j, j + c.len())[k] == b[j + k]);
        }
    }
    assert(stands_at(a, c, i + j));
}

/// The blocks of the findings on a file, in a page: of no finding there is none; of one there is
/// its block if it is on the file; and of two lists of findings one after the other, those of
/// the first and then those of the second.
pub proof fn law_finding_blocks(
    first: Seq<FindingText>,
    second: Seq<FindingText>,
    f: FindingText,
    file: PathText,
)
    ensures
        finding_blocks(seq![], file, 0) == Seq::<char>::empty(),
        f.file.parts == file.parts ==> finding_blocks(seq![f], file, 1) == finding_block(f),
        f.file.parts != file.parts ==> finding_blocks(seq![f], file, 1) == Seq::<char>::empty(),
        finding_blocks(first + second, file, (first + second).len() as int) == finding_blocks(
            first,
            file,
            first.len() as int,
        ) + finding_blocks(second, file, second.len() as int),
{
    reveal_with_fuel(finding_blocks, 2);
    assert(Seq::<char>::empty() + finding_block(f) =~= finding_block(f));
    lemma_blocks_prefix(first, second, file, first.len() as int);
    lemma_blocks_split(first, second, file, second.len() as int);
}

proof fn lemma_blocks_prefix(
    first: Seq<FindingText>,
    second: Seq<FindingText>,
    file: PathText,
    n: int,
)
    requires
        0 <= n <= first.len(),
    ensures
        finding_blocks(first + second, file, n) == finding_blocks(first, file, n),
    decreases n,
{
    if n > 0 {
        lemma_blocks_prefix(first, second, file, n - 1);
        assert((first + second)[n - 1] == first[n - 1]);
    }
}

proof fn lemma_blocks_split(
    first: Seq<FindingText>,
    second: Seq<FindingText>,
    file: PathText,
    n: int,
)
    requires
        0 <= n <= second.len(),
    ensures
        finding_blocks(first + second, file, first.len() + n) == finding_blocks(
            first,
            file,
            first.len() as int,
        ) + finding_blocks(second, file, n),
    decreases n,
{
    lemma_blocks_prefix(first, second, file, first.len() as int);
    let head = finding_blocks(first, file, first.len() as int);
    if n > 0 {
        lemma_blocks_split(first, second, file, n - 1);
        assert((first + second)[first.len() + n - 1] == second[n - 1]);
        assert(finding_blocks(first + second, file, first.len() + n) =~= head + finding_blocks(
            second,
            file,
            n,
        ));
    } else {
        assert(head + finding_blocks(second, file, 0) =~= head);
    }
}

/// The section of a file in the page: its heading and the blocks of all findings on it.
pub proof fn law_page_has_every_section(
    findings: Seq<FindingText>,
    spawns: Seq<FileSpawnsText>,
    files_scanned: nat,
    root: Seq<char>,
    i: int,
)
    requires
        0 <= i < findings.len(),
    ensures
        exists|file: PathText|
            file.parts == findings[i].file.parts && occurs(
                page(findings, spawns, files_scanned, root),
                "<h3 class=\"filename mono\">"@ + escaped(file.text)
                    + "</h3><div class=\"findings\">"@ + #[trigger] finding_blocks(
                    findings,
                    file,
                    findings.len() as int,
                ) + "</div>"@,
            ),
{
    let files = files_with_findings(findings);
    law_nothing_is_left_out(findings, i);
    let k = choose|k: int| 0 <= k < files.len() && same_path(#[trigger] files[k], findings[i].file);
    let file = files[k];
    let section = page_section(findings, file);
    lemma_file_section(findings, files, files.len() as int, k);
    let blocks = file_blocks(findings, files, files.len() as int);
    law_occurs_in_both("<section><h2>Findings</h2>"@, blocks, section);
    law_occurs_in_both("<section><h2>Findings</h2>"@ + blocks, "</section>"@, section);
    lemma_in_page(findings, spawns, files_scanned, root, section);
    assert(file.parts == findings[i].file.parts && occurs(
        page(findings, spawns, files_scanned, root),
        "<h3 class=\"filename mono\">"@ + escaped(file.text) + "</h3><div class=\"findings\">"@
            + finding_blocks(findings, file, findings.len() as int) + "</div>"@,
    ));
}

spec fn page_section(findings: Seq<FindingText>, file: PathText) -> Seq<char> {
    "<h3 class=\"filename mono\">"@ + escaped(file.text) + "</h3><div class=\"findings\">"@
        + finding_blocks(findings, file, findings.len() as int) + "</div>"@
}

proof fn lemma_file_section(
    findings: Seq<FindingText>,
    files: Seq<PathText>,
    n: int,
    k: int,
)
    requires
        0 <= k < n <= files.len(),
    ensures
        occurs(file_blocks(findings, files, n), page_section(findings, files[k])),
    decreases n,
{
    let before = file_blocks(findings, files, n - 1);
    let section = page_section(findings, files[k]);
    let last = page_section(findings, files[n - 1]);
    assert(file_blocks(findings, files, n) =~= before + last);
    if k < n - 1 {
        lemma_file_section(findings, files, n - 1, k);
    } else {
        lemma_occurs_itself(section);
    }
    law_occurs_in_both(before, last, section);
}

/// The page gives the number of files, of findings, and of findings of each severity, each with
/// its own label.
pub proof fn law_page_counts(
    findings: Seq<FindingText>,
    spawns: Seq<FileSpawnsText>,
    files_scanned: nat,
    root: Seq<char>,
)
    ensures
        ({
            let p = page(findings, spawns, files_scanned, root);
            let end = "</span><span class=\"stat-label\">"@;
            let start = "\"><span class=\"stat-num\">"@;
            &&& occurs(p, start + decimal(files_scanned) + end + "files scanned</span>"@)
            &&& occurs(p, start + decimal(findings.len()) + end + "total issues</span>"@)
            &&& occurs(
                p,
                start + decimal(severity_count(findings, Severity::High)) + end + "high</span>"@,
            )
            &&& occurs(
                p,
                start + decimal(severity_count(findings, Severity::Medium)) + end
                    + "medium</span>"@,
            )
            &&& occurs(
                p,
                start + decimal(severity_count(findings, Severity::Low)) + end + "low</span>"@,
            )
            &&& occurs(p, escaped(root))
        }),
{
    reveal_strlit("files scanned");
    reveal_strlit("total issues");
    reveal_strlit("high");
    reveal_strlit("medium");
    reveal_strlit("low");
    reveal_strlit("</span></div>");
    assert("files scanned"@ + "</span></div>"@.take(7) =~= "files scanned</span>"@) by {
        reveal_strlit("files scanned</span>");
    }
    assert("total issues"@ + "</span></div>"@.take(7) =~= "total issues</span>"@) by {
        reveal_strlit("total issues</span>");
    }
    assert("high"@ + "</span></div>"@.take(7) =~= "high</span>"@) by {
        reveal_strlit("high</span>");
    }
    assert("medium"@ + "</span></div>"@.take(7) =~= "medium</span>"@) by {
        reveal_strlit("medium</span>");
    }
    assert("low"@ + "</span></div>"@.take(7) =~= "low</span>"@) by {
        reveal_strlit("low</span>");
    }
    let high = severity_count(findings, Severity::High);
    let medium = severity_count(findings, Severity::Medium);
    let low = severity_count(findings, Severity::Low);
    lemma_stat("stat"@, files_scanned, "files scanned"@, "files scanned</span>"@);
    lemma_stat("stat"@, findings.len(), "total issues"@, "total issues</span>"@);
    lemma_stat("stat sev-high-bg"@, high, "high"@, "high</span>"@);
    lemma_stat("stat sev-med-bg"@, medium, "medium"@, "medium</span>"@);
    lemma_stat("stat sev-low-bg"@, low, "low"@, "low</span>"@);
    lemma_in_stats(findings, spawns, files_scanned, root, stat_part(files_scanned, "files scanned</span>"@));
    lemma_in_stats(findings, spawns, files_scanned, root, stat_part(findings.len(), "total issues</span>"@));
    lemma_in_stats(findings, spawns, files_scanned, root, stat_part(high, "high</span>"@));
    lemma_in_stats(findings, spawns, files_scanned, root, stat_part(medium, "medium</span>"@));
    lemma_in_stats(findings, spawns, files_scanned, root, stat_part(low, "low</span>"@));
    let h1 = "<!DOCTYPE html><html lang=\"en\"><head><meta charset=\"UTF-8\">"@
        + "<title>pyleak report</title><style>"@ + CSS@ + "</style></head><body>"@
        + "<header><h1>pyleak</h1><p class=\"subtitle\">static memory-leak report for <code>"@;
    lemma_occurs_itself(escaped(root));
    law_occurs_in_both(h1, escaped(root), escaped(root));
    law_occurs_in_both(h1 + escaped(root), "</code></p></header>"@, escaped(root));
    lemma_from_head(findings, spawns, files_scanned, root, escaped(root));
}

spec fn stat_part(count: nat, label: Seq<char>) -> Seq<char> {
    "\"><span class=\"stat-num\">"@ + decimal(count) + "</span><span class=\"stat-label\">"@ + label
}

proof fn lemma_stat(class: Seq<char>, count: nat, label: Seq<char>, shown: Seq<char>)
    requires
        label + "</span></div>"@.take(7) == shown,
        "</span></div>"@.len() >= 7,
    ensures
        occurs(stat(class, count, label), stat_part(count, shown)),
{
    let part = stat_part(count, shown);
    let front = "<div class=\""@ + class;
    let back = "</span></div>"@.skip(7);
    assert("</span></div>"@ =~= "</span></div>"@.take(7) + back);
    assert(stat(class, count, label) =~= front + part + back);
    law_occurs(front, part, back, part);
}

proof fn lemma_from_head(
    findings: Seq<FindingText>,
    spawns: Seq<FileSpawnsText>,
    files_scanned: nat,
    root: Seq<char>,
    part: Seq<char>,
)
    ensures
        occurs(page_head(root), part) || occurs(page_stats(findings, files_scanned), part)
            ==> occurs(page(findings, spawns, files_scanned, root), part),
{
    let s1 = page_head(root) + page_stats(findings, files_scanned);
    let s2 = s1 + page_spawns(spawns);
    let s3 = s2 + page_findings(findings);
    let s4 = s3 + page_summary(findings);
    law_occurs_in_both(page_head(root), page_stats(findings, files_scanned), part);
    law_occurs_in_both(s1, page_spawns(spawns), part);
    law_occurs_in_both(s2, page_findings(findings), part);
    law_occurs_in_both(s3, page_summary(findings), part);
    law_occurs_in_both(s4, page_foot(), part);
}

proof fn lemma_in_stats(
    findings: Seq<FindingText>,
    spawns: Seq<FileSpawnsText>,
    files_scanned: nat,
    root: Seq<char>,
    part: Seq<char>,
)
    ensures
        ({
            ||| occurs(stat("stat"@, files_scanned, "files scanned"@), part)
            ||| occurs(stat("stat"@, findings.len(), "total issues"@), part)
            ||| occurs(
                stat("stat sev-high-bg"@, severity_count(findings, Severity::High), "high"@),
                part,
            )
            ||| occurs(
                stat("stat sev-med-bg"@, severity_count(findings, Severity::Medium), "medium"@),
                part,
            )
            ||| occurs(
                stat("stat sev-low-bg"@, severity_count(findings, Severity::Low), "low"@),
                part,
            )
        }) ==> occurs(page(findings, spawns, files_scanned, root), part),
{
    let a = stat("stat"@, files_scanned, "files scanned"@);
    let b = stat("stat"@, findings.len(), "total issues"@);
    let c = stat("stat sev-high-bg"@, severity_count(findings, Severity::High), "high"@);
    let d = stat("stat sev-med-bg"@, severity_count(findings, Severity::Medium), "medium"@);
    let e = stat("stat sev-low-bg"@, severity_count(findings, Severity::Low), "low"@);
    let s0 = "<section class=\"stats\">"@;
    law_occurs_in_both(s0, a, part);
    law_occurs_in_both(s0 + a, b, part);
    law_occurs_in_both(s0 + a + b, c, part);
    law_occurs_in_both(s0 + a + b + c, d, part);
    law_occurs_in_both(s0 + a + b + c + d, e, part);
    law_occurs_in_both(s0 + a + b + c + d + e, "</section>"@, part);
    lemma_from_head(findings, spawns, files_scanned, root, part);
}

/// One more finding adds one to the count of its severity, and to no other.
pub proof fn law_severity_count(findings: Seq<FindingText>, f: FindingText, severity: Severity)
    ensures
        severity_count(seq![], severity) == 0,
        severity_count(findings.push(f), severity) == severity_count(findings, severity) + if f.severity
            == severity {
            1int
        } else {
            0int
        },
{
    assert(findings.push(f).drop_last() =~= findings);
}

/// Whether some pieces stand one after the other among others.
pub open spec fn has_pieces(all: Seq<PieceText>, part: Seq<PieceText>) -> bool {
    exists|at: int|
        0 <= at && at + part.len() <= all.len() && #[trigger] all.subrange(at, at + part.len())
            == part
}

proof fn lemma_has_pieces(a: Seq<PieceText>, b: Seq<PieceText>, part: Seq<PieceText>)
    ensures
        has_pieces(part, part),
        has_pieces(a, part) ==> has_pieces(a + b, part),
        has_pieces(b, part) ==> has_pieces(a + b, part),
{
    assert(part.subrange(0, 0int + part.len()) =~= part);
    if has_pieces(a, part) {
        let at = choose|at: int|
            0 <= at && at + part.len() <= a.len() && #[trigger] a.subrange(at, at + part.len())
                == part;
        assert((a + b).subrange(at, at + part.len()) =~= a.subrange(at, at + part.len()));
    }
    if has_pieces(b, part) {
        let at = choose|at: int|
            0 <= at && at + part.len() <= b.len() && #[trigger] b.subrange(at, at + part.len())
                == part;
        let to = a.len() + at;
        assert((a + b).subrange(to, to + part.len()) =~= b.subrange(at, at + part.len()));
    }
}

/// How many spawn points the first `n` files have.
pub open spec fn spawn_total(spawns: Seq<FileSpawnsText>, n: int) -> nat
    decreases n,
{
    if n <= 0 {
        0
    } else {
        spawn_total(spawns, n - 1) + spawns[n - 1].points.len()
    }
}

proof fn lemma_spawn_lines(file: Seq<char>, points: Seq<SpawnText>, n: int, j: int)
    requires
        0 <= n <= points.len(),
        0 <= j < points.len(),
    ensures
        spawn_lines(file, points, n).len() == 3 * n,
        j < n ==> has_pieces(spawn_lines(file, points, n), spawn_line(file, points[j])),
    decreases n,
{
    if n > 0 {
        lemma_spawn_lines(file, points, n - 1, j);
        lemma_has_pieces(
            spawn_lines(file, points, n - 1),
            spawn_line(file, points[n - 1]),
            spawn_line(file, points[j]),
        );
    }
}

proof fn lemma_all_spawn_lines(spawns: Seq<FileSpawnsText>, n: int, i: int, j: int)
    requires
        0 <= n <= spawns.len(),
        0 <= i < spawns.len(),
        0 <= j < spawns[i].points.len(),
    ensures
        all_spawn_lines(spawns, n).len() == 3 * spawn_total(spawns, n),
        i < n ==> has_pieces(
            all_spawn_lines(spawns, n),
            spawn_line(spawns[i].file.text, spawns[i].points[j]),
        ),
    decreases n,
{
    if n > 0 {
        lemma_all_spawn_lines(spawns, n - 1, i, j);
        let last = spawns[n - 1];
        let count = last.points.len() as int;
        if count > 0 {
            lemma_spawn_lines(last.file.text, last.points, count, 0);
        }
        let line = spawn_line(spawns[i].file.text, spawns[i].points[j]);
        if i == n - 1 {
            lemma_spawn_lines(last.file.text, last.points, count, j);
        }
        lemma_has_pieces(
            all_spawn_lines(spawns, n - 1),
            spawn_lines(last.file.text, last.points, count),
            line,
        );
    }
}

/// The text shows every spawn point of every file, in three pieces each, and no others; where
/// there are none it says nothing of them.
pub proof fn law_text_shows_every_spawn(
    findings: Seq<FindingText>,
    spawns: Seq<FileSpawnsText>,
    files_scanned: nat,
    root: Seq<char>,
    i: int,
    j: int,
)
    requires
        0 <= i < spawns.len(),
        0 <= j < spawns[i].points.len(),
    ensures
        text_spawns(spawns).len() == 3 + 3 * spawn_total(spawns, spawns.len() as int),
        has_pieces(
            terminal_text(findings, spawns, files_scanned, root),
            spawn_line(spawns[i].file.text, spawns[i].points[j]),
        ),
        text_spawns(seq![]).len() == 0,
{
    assert(any_spawns(spawns));
    let line = spawn_line(spawns[i].file.text, spawns[i].points[j]);
    let n = spawns.len() as int;
    lemma_all_spawn_lines(spawns, n, i, j);
    let head = painted(Paint::Bold, "Execution tree discovered:"@) + painted(Paint::Plain, "\n"@);
    let all = all_spawn_lines(spawns, n);
    lemma_has_pieces(head, all, line);
    lemma_has_pieces(head + all, painted(Paint::Plain, "\n"@), line);
    lemma_has_pieces(text_head(files_scanned, root), text_spawns(spawns), line);
    lemma_has_pieces(
        text_head(files_scanned, root) + text_spawns(spawns),
        text_findings(findings),
        line,
    );
    assert(!any_spawns(seq![]));
}

/// What is printed and what is shown of a spawn point: its file, its line counted from one, its
/// kind and its code.
#[verifier::rlimit(30)]
pub proof fn law_spawn_line(file: Seq<char>, p: SpawnText)
    requires
        p.line >= 0,
    ensures
        spawn_line(file, p).len() == 3,
        occurs(spawn_line(file, p)[0].text, file),
        occurs(spawn_line(file, p)[0].text, decimal((p.line + 1) as nat)),
        spawn_line(file, p)[1].text == spawn_word(p.kind),
        spawn_line(file, p)[1].paint == spawn_paint(p.kind),
        occurs(spawn_line(file, p)[2].text, p.raw),
        occurs(spawn_row(file, p), escaped(file)),
        occurs(spawn_row(file, p), decimal((p.line + 1) as nat)),
        occurs(spawn_row(file, p), spawn_word(p.kind)),
        occurs(spawn_row(file, p), escaped(p.raw)),
{
    let line = decimal((p.line + 1) as nat);
    law_occurs("  "@, file, ":"@ + line + "  ["@, file);
    assert("  "@ + file + (":"@ + line + "  ["@) =~= "  "@ + file + ":"@ + line + "  ["@);
    law_occurs("  "@ + file + ":"@, line, "  ["@, line);
    law_occurs("]  "@, p.raw, "\n"@, p.raw);
    let style = spawn_style(p.kind);
    let word = spawn_word(p.kind);
    let r = spawn_row(file, p);
    let a = "<tr><td class=\"mono\">"@;
    let b = "</td><td>"@;
    let c = "</td><td><span class=\"tag "@;
    let d = "\">"@;
    let e = "</span></td><td class=\"mono\">"@;
    let f = "</td></tr>"@;
    let raw = escaped(p.raw);
    law_occurs(a, escaped(file), b + line + c + style + d + word + e + raw + f, r);
    assert(a + escaped(file) + (b + line + c + style + d + word + e + raw + f) =~= r);
    law_occurs(a + escaped(file) + b, line, c + style + d + word + e + raw + f, r);
    assert(a + escaped(file) + b + line + (c + style + d + word + e + raw + f) =~= r);
    law_occurs(a + escaped(file) + b + line + c + style + d, word, e + raw + f, r);
    assert(a + escaped(file) + b + line + c + style + d + word + (e + raw + f) =~= r);
    law_occurs(a + escaped(file) + b + line + c + style + d + word + e, raw, f, r);
}

/// What is shown of a finding in a page: its severity, its line, its function or the module, its
/// category and its message.
pub proof fn law_finding_block(f: FindingText)
    requires
        f.line >= 0,
    ensures
        occurs(finding_block(f), severity_text(f.severity)),
        occurs(finding_block(f), "line "@ + decimal(f.line as nat)),
        f.function matches Some(name) ==> occurs(
            finding_block(f),
            escaped("fn "@ + name + "()"@),
        ),
        f.function is None ==> occurs(finding_block(f), escaped("module level"@)),
        occurs(finding_block(f), escaped(f.category)),
        occurs(finding_block(f), escaped(f.message)),
{
    reveal_strlit("</span><span class=\"loc\">line ");
    reveal_strlit("line ");
    let style = severity_style(f.severity);
    let word = severity_text(f.severity);
    let number = decimal(f.line as nat);
    let label = escaped(function_label(f.function));
    let category = escaped(f.category);
    let message = escaped(f.message);
    let a = "<div class=\"finding "@ + style
        + "\"><div class=\"finding-head\"><span class=\"badge "@ + style + "\">"@;
    let b = "</span><span class=\"loc\">line "@;
    let c = "</span><span class=\"func mono\">"@;
    let d = "</span><span class=\"category\">"@;
    let e = "</span></div><p class=\"message\">"@;
    let g = "</p></div>"@;
    let r = finding_block(f);
    law_occurs(a, word, b + number + c + label + d + category + e + message + g, r);
    assert(a + word + (b + number + c + label + d + category + e + message + g) =~= r);
    let cut = b.len() - 5;
    assert(b =~= b.take(cut) + "line "@);
    law_occurs(
        a + word + b.take(cut),
        "line "@ + number,
        c + label + d + category + e + message + g,
        r,
    );
    assert(a + word + b.take(cut) + ("line "@ + number) + (c + label + d + category + e + message
        + g) =~= r);
    law_occurs(a + word + b + number + c, label, d + category + e + message + g, r);
    assert(a + word + b + number + c + label + (d + category + e + message + g) =~= r);
    law_occurs(a + word + b + number + c + label + d, category, e + message + g, r);
    assert(a + word + b + number + c + label + d + category + (e + message + g) =~= r);
    law_occurs(a + word + b + number + c + label + d + category + e, message, g, r);
}

/// The summary counts, for each file and function, the findings on it: each line of it stands
/// for one key, in the text and in the page, with the number of findings of that key.
pub proof fn law_summary_is_shown(findings: Seq<FindingText>, n: int, k: int)
    requires
        0 <= k < n <= summary(findings).len(),
    ensures
        summary_lines(summary(findings), n).len() == n,
        occurs(summary_lines(summary(findings), n)[k].text, summary(findings)[k].0),
        occurs(
            summary_lines(summary(findings), n)[k].text,
            "("@ + decimal(summary(findings)[k].1) + " issue(s))"@,
        ),
        occurs(
            summary_rows(summary(findings), n),
            "<td class=\"mono\">"@ + escaped(summary(findings)[k].0) + "</td><td>"@ + decimal(
                summary(findings)[k].1,
            ) + "</td>"@,
        ),
        summary(findings)[k].1 == text_occurrences(
            Seq::new(
                findings.len(),
                |i: int|
                    findings[i].file.text + " :: "@ + (match findings[i].function {
                        Some(name) => name,
                        None => "<module>"@,
                    }),
            ),
            summary(findings)[k].0,
        ),
    decreases n,
{
    let counts = summary(findings);
    let keys = Seq::new(findings.len(), |i: int| summary_key(findings[i]));
    let same = Seq::new(
        findings.len(),
        |i: int|
            findings[i].file.text + " :: "@ + (match findings[i].function {
                Some(name) => name,
                None => "<module>"@,
            }),
    );
    assert(keys =~= same);
    law_tally_in_order(keys);
    lemma_summary_len(counts, n - 1);
    let row = "<td class=\"mono\">"@ + escaped(counts[k].0) + "</td><td>"@ + decimal(counts[k].1)
        + "</td>"@;
    let before = summary_rows(counts, n - 1);
    let (key, count) = counts[n - 1];
    let last = "<tr><td class=\"mono\">"@ + escaped(key) + "</td><td>"@ + decimal(count)
        + "</td></tr>"@;
    assert(summary_rows(counts, n) =~= before + last);
    law_occurs_in_both(before, last, row);
    if k == n - 1 {
        lemma_summary_line(key, count);
        lemma_summary_row(escaped(key), decimal(count));
    } else {
        law_summary_is_shown(findings, n - 1, k);
        assert(summary_lines(counts, n)[k] == summary_lines(counts, n - 1)[k]);
    }
}

proof fn lemma_summary_line(key: Seq<char>, count: nat)
    ensures
        occurs("  - "@ + key + "  ("@ + decimal(count) + " issue(s))\n"@, key),
        occurs(
            "  - "@ + key + "  ("@ + decimal(count) + " issue(s))\n"@,
            "("@ + decimal(count) + " issue(s))"@,
        ),
{
    let number = decimal(count);
    let open = "  ("@;
    let close = " issue(s))\n"@;
    let text = "  - "@ + key + open + number + close;
    law_occurs("  - "@, key, open + number + close, text);
    assert("  - "@ + key + (open + number + close) =~= text);
    assert(open =~= seq![' ', ' '] + "("@) by {
        reveal_strlit("  (");
        reveal_strlit("(");
    }
    assert(close =~= " issue(s))"@ + seq!['\n']) by {
        reveal_strlit(" issue(s))\n");
        reveal_strlit(" issue(s))");
    }
    lemma_inner_part("  - "@ + key, seq![' ', ' '], "("@, number, " issue(s))"@, seq!['\n']);
}

proof fn lemma_inner_part(
    a: Seq<char>,
    b: Seq<char>,
    c: Seq<char>,
    d: Seq<char>,
    e: Seq<char>,
    f: Seq<char>,
)
    ensures
        occurs(a + (b + c) + d + (e + f), c + d + e),
{
    let text = a + (b + c) + d + (e + f);
    law_occurs(a + b, c + d + e, f, text);
    assert(a + b + (c + d + e) + f =~= text);
}

proof fn lemma_summary_row(key: Seq<char>, number: Seq<char>)
    ensures
        occurs(
            "<tr><td class=\"mono\">"@ + key + "</td><td>"@ + number + "</td></tr>"@,
            "<td class=\"mono\">"@ + key + "</td><td>"@ + number + "</td>"@,
        ),
{
    let open = "<tr><td class=\"mono\">"@;
    let close = "</td></tr>"@;
    let front = open.take(4);
    let back = close.skip(5);
    assert(open =~= front + "<td class=\"mono\">"@) by {
        reveal_strlit("<tr><td class=\"mono\">");
        reveal_strlit("<td class=\"mono\">");
    }
    assert(close =~= "</td>"@ + back) by {
        reveal_strlit("</td></tr>");
        reveal_strlit("</td>");
    }
    let cell = "<td class=\"mono\">"@;
    let middle = key + "</td><td>"@ + number;
    lemma_inner_part(seq![], front, cell, middle, "</td>"@, back);
    assert(seq![] + (front + cell) + middle + ("</td>"@ + back) =~= open + key + "</td><td>"@
        + number + close);
    assert(cell + middle + "</td>"@ =~= cell + key + "</td><td>"@ + number + "</td>"@);
}

proof fn lemma_summary_len(counts: Seq<(Seq<char>, nat)>, n: int)
    requires
        0 <= n,
    ensures
        summary_lines(counts, n).len() == n,
    decreases n,
{
    if n > 0 {
        lemma_summary_len(counts, n - 1);
    }
}

/// Escaping keeps every character that has no meaning in a page, and goes character by
/// character.
pub proof fn law_escaped(a: Seq<char>, b: Seq<char>, c: char)
    ensures
        escaped(a + b) == escaped(a) + escaped(b),
        escaped(seq!['&']) == "&amp;"@,
        escaped(seq!['<']) == "&lt;"@,
        escaped(seq!['>']) == "&gt;"@,
        escaped(seq!['"']) == "&quot;"@,
        c != '&' && c != '<' && c != '>' && c != '"' ==> escaped(seq![c]) == seq![c],
    decreases b.len(),
{
    if b.len() > 0 {
        law_escaped(a, b.drop_last(), c);
        assert((a + b).drop_last() =~= a + b.drop_last());
        assert(escaped(a + b) =~= escaped(a) + escaped(b));
    } else {
        assert(a + b =~= a);
        assert(escaped(a) + escaped(b) =~= escaped(a));
    }
    reveal_with_fuel(escaped, 2);
    assert(seq!['&'].drop_last() =~= seq![]);
    assert(seq!['<'].drop_last() =~= seq![]);
    assert(seq!['>'].drop_last() =~= seq![]);
    assert(seq!['"'].drop_last() =~= seq![]);
    assert(seq![c].drop_last() =~= seq![]);
    assert(escaped(seq!['&']) =~= "&amp;"@);
    assert(escaped(seq!['<']) =~= "&lt;"@);
    assert(escaped(seq!['>']) =~= "&gt;"@);
    assert(escaped(seq!['"']) =~= "&quot;"@);
    if c != '&' && c != '<' && c != '>' && c != '"' {
        assert(escaped(seq![c]) =~= seq![c]);
    }
}

/// What stands for a severity and for a kind of spawn point: each has a word and a class of its
/// own, high is not low, and an import is no spawn.
pub proof fn law_words()
    ensures
        severity_text(Severity::High) == "HIGH"@,
        severity_text(Severity::Medium) == "MED"@,
        severity_text(Severity::Low) == "LOW"@,
        severity_style(Severity::High) == "sev-high"@,
        severity_style(Severity::Medium) == "sev-med"@,
        severity_style(Severity::Low) == "sev-low"@,
        severity_paint(Severity::High) == Paint::BoldRed,
        severity_paint(Severity::Medium) == Paint::BoldYellow,
        severity_paint(Severity::Low) == Paint::Plain,
        spawn_word(SpawnKind::Subprocess) == "subprocess"@,
        spawn_word(SpawnKind::OsSystem) == "os.system"@,
        spawn_word(SpawnKind::Multiprocessing) == "multiprocessing"@,
        spawn_word(SpawnKind::Import) == "import"@,
        forall|kind: SpawnKind|
            kind != SpawnKind::Import ==> #[trigger] spawn_style(kind) == "tag-spawn"@
                && spawn_paint(kind) == Paint::Cyan,
        spawn_style(SpawnKind::Import) == "tag-import"@,
        spawn_paint(SpawnKind::Import) == Paint::Dimmed,
{
}

/// A letter, a digit, an underscore or a hyphen is kept in the name of a report, and so is what
/// counts as a letter or a number beyond ASCII; anything else is an underscore there.
pub proof fn law_name_char(c: char)
    ensures
        ({
            let u = c as u32;
            let kept = {
                ||| 48 <= u <= 57
                ||| 65 <= u <= 90
                ||| 97 <= u <= 122
                ||| u == 95
                ||| u == 45
                ||| u >= 128 && alphanumeric(c)
            };
            &&& kept ==> name_char(c) == c
            &&& !kept ==> name_char(c) == '_'
        }),
{
}

/// The name of a report is `pyleak_report_`, the name of its target, the time and `.html`. The
/// name of the target goes in character for character; without a target it is `project`.
pub proof fn law_report_name(stem: Seq<char>, timestamp: Seq<char>, k: int)
    ensures
        filename_at(None, timestamp) == "pyleak_report_project_"@ + timestamp + ".html"@,
        ({
            let name = filename_at(Some(stem), timestamp);
            &&& name.len() == 14 + stem.len() + 1 + timestamp.len() + 5
            &&& name.take(14) == "pyleak_report_"@
            &&& name.skip(14 + stem.len() as int) == "_"@ + timestamp + ".html"@
            &&& 0 <= k < stem.len() ==> name[14 + k] == name_char(stem[k])
        }),
{
    reveal_strlit("pyleak_report_");
    reveal_strlit("pyleak_report_project_");
    reveal_strlit("project");
    reveal_strlit("_");
    reveal_strlit(".html");
    assert(filename_at(None, timestamp) =~= "pyleak_report_project_"@ + timestamp + ".html"@);
    let name = filename_at(Some(stem), timestamp);
    let middle = name_stem(Some(stem));
    assert(middle.len() == stem.len());
    assert(name.take(14) =~= "pyleak_report_"@);
    assert(name.skip(14 + stem.len() as int) =~= "_"@ + timestamp + ".html"@);
    if 0 <= k < stem.len() {
        assert(name[14 + k] == middle[k]);
    }
}

/// The files with findings are just those on which there is one, in rising order.
pub proof fn law_files_with_findings(findings: Seq<FindingText>, file: PathText)
    ensures
        rising(files_with_findings(findings)),
        has_path(files_with_findings(findings), file) <==> exists|i: int|
            0 <= i < findings.len() && (#[trigger] findings[i]).file.parts == file.parts,
{
    let all = Seq::new(findings.len(), |i: int| findings[i].file);
    law_ordered_paths(all);
    if has_path(all, file) {
        let i = choose|i: int| 0 <= i < all.len() && same_path(#[trigger] all[i], file);
        assert(findings[i].file.parts == file.parts);
    }
    if exists|i: int| 0 <= i < findings.len() && (#[trigger] findings[i]).file.parts == file.parts {
        let i = choose|i: int|
            0 <= i < findings.len() && (#[trigger] findings[i]).file.parts == file.parts;
        assert(same_path(all[i], file));
    }
}

/// The text says what was scanned and how many files that were; where there are findings it says
/// how many and ends in the summary, and where there are none it says so.
pub proof fn law_text_frame(
    findings: Seq<FindingText>,
    spawns: Seq<FileSpawnsText>,
    files_scanned: nat,
    root: Seq<char>,
)
    ensures
        ({
            let text = terminal_text(findings, spawns, files_scanned, root);
            let at = 3 + text_spawns(spawns).len() as int;
            let lines = summary_lines(summary(findings), summary(findings).len() as int);
            &&& occurs(text[1].text, root)
            &&& occurs(text[2].text, decimal(files_scanned) + " python file(s) scanned"@)
            &&& findings.len() == 0 ==> text[at].text == "No suspicious patterns found. 🎉"@
            &&& findings.len() > 0 ==> {
                &&& occurs(text[at].text, decimal(findings.len()) + " potential issue(s)"@)
                &&& has_pieces(text, lines)
            }
        }),
{
    let text = terminal_text(findings, spawns, files_scanned, root);
    let head = text_head(files_scanned, root);
    let front = head + text_spawns(spawns);
    let found = text_findings(findings);
    let at = front.len() as int;
    assert(head.len() == 3);
    assert(text[1] == head[1]);
    assert(text[2] == head[2]);
    assert(text[at] == found[0]);
    law_occurs("pyleak — static memory-leak report for "@, root, seq![], root);
    assert("pyleak — static memory-leak report for "@ + root + seq![]
        =~= "pyleak — static memory-leak report for "@ + root);
    let scanned = decimal(files_scanned) + " python file(s) scanned"@;
    assert(" python file(s) scanned\n\n"@ =~= " python file(s) scanned"@ + seq!['\n', '\n']) by {
        reveal_strlit(" python file(s) scanned\n\n");
        reveal_strlit(" python file(s) scanned");
    }
    law_occurs("\n"@, scanned, seq!['\n', '\n'], scanned);
    assert("\n"@ + scanned + seq!['\n', '\n'] =~= "\n"@ + decimal(files_scanned)
        + " python file(s) scanned\n\n"@);
    if findings.len() > 0 {
        let count = decimal(findings.len()) + " potential issue(s)"@;
        assert(" potential issue(s) found:\n"@ =~= " potential issue(s)"@
            + " potential issue(s) found:\n"@.skip(19)) by {
            reveal_strlit(" potential issue(s) found:\n");
            reveal_strlit(" potential issue(s)");
        }
        law_occurs(seq![], count, " potential issue(s) found:\n"@.skip(19), count);
        assert(seq![] + count + " potential issue(s) found:\n"@.skip(19) =~= decimal(
            findings.len(),
        ) + " potential issue(s) found:\n"@);
        let lines = summary_lines(summary(findings), summary(findings).len() as int);
        lemma_text_holds_summary(findings, lines);
        lemma_has_pieces(front, found, lines);
    }
}

proof fn lemma_text_holds_summary(findings: Seq<FindingText>, lines: Seq<PieceText>)
    requires
        findings.len() > 0,
        lines == summary_lines(summary(findings), summary(findings).len() as int),
    ensures
        has_pieces(text_findings(findings), lines),
{
    let files = files_with_findings(findings);
    let a = painted(Paint::BoldRed, decimal(findings.len()) + " potential issue(s) found:\n"@)
        + painted(Paint::Plain, "\n"@) + findings_by_file(findings, files, files.len() as int)
        + painted(Paint::Bold, "Summary by function:"@) + painted(Paint::Plain, "\n"@);
    let b = a + lines + painted(Paint::Plain, "\n"@);
    let note = painted(
        Paint::Dimmed,
        "Note: this is static pattern-matching, not execution — it flags suspects for review, not proven leaks."@,
    );
    lemma_has_pieces(a, lines, lines);
    lemma_has_pieces(a + lines, painted(Paint::Plain, "\n"@), lines);
    lemma_has_pieces(b, note, lines);
    lemma_has_pieces(b + note, painted(Paint::Plain, "\n"@), lines);
}

/// The page holds the whole summary where there are findings, and says so where there are none.
pub proof fn law_page_frame(
    findings: Seq<FindingText>,
    spawns: Seq<FileSpawnsText>,
    files_scanned: nat,
    root: Seq<char>,
)
    ensures
        ({
            let p = page(findings, spawns, files_scanned, root);
            let counts = summary(findings);
            &&& findings.len() == 0 ==> occurs(
                p,
                "<p class=\"empty\">No suspicious patterns found. 🎉</p>"@,
            )
            &&& findings.len() > 0 ==> occurs(p, summary_rows(counts, counts.len() as int))
        }),
{
    let counts = summary(findings);
    let empty = "<p class=\"empty\">No suspicious patterns found. 🎉</p>"@;
    if findings.len() == 0 {
        law_occurs("<section><h2>Findings</h2>"@, empty, "</section>"@, empty);
        lemma_in_page(findings, spawns, files_scanned, root, empty);
    } else {
        let rows = summary_rows(counts, counts.len() as int);
        let front = "<section><h2>Summary by function</h2><table class=\"summary\">"@
            + "<tr><th>File :: Function</th><th>Issues</th></tr>"@;
        law_occurs(front, rows, "</table></section>"@, rows);
        let s3 = page_head(root) + page_stats(findings, files_scanned) + page_spawns(spawns)
            + page_findings(findings);
        law_occurs_in_both(s3, page_summary(findings), rows);
        law_occurs_in_both(s3 + page_summary(findings), page_foot(), rows);
    }
}

/// The rows of spawn points: of none there is none, of one its row, and of two lists one after
/// the other those of the first and then those of the second.
pub proof fn law_spawn_rows(
    file: Seq<char>,
    first: Seq<SpawnText>,
    second: Seq<SpawnText>,
    p: SpawnText,
)
    ensures
        spawn_rows(file, seq![], 0) == Seq::<char>::empty(),
        spawn_rows(file, seq![p], 1) == spawn_row(file, p),
        spawn_rows(file, first + second, (first + second).len() as int) == spawn_rows(
            file,
            first,
            first.len() as int,
        ) + spawn_rows(file, second, second.len() as int),
{
    reveal_with_fuel(spawn_rows, 2);
    assert(spawn_rows(file, seq![p], 1) =~= spawn_row(file, p));
    lemma_rows_first(file, first, second, first.len() as int);
    lemma_rows_second(file, first, second, second.len() as int);
}

proof fn lemma_rows_first(file: Seq<char>, first: Seq<SpawnText>, second: Seq<SpawnText>, n: int)
    requires
        0 <= n <= first.len(),
    ensures
        spawn_rows(file, first + second, n) == spawn_rows(file, first, n),
    decreases n,
{
    if n > 0 {
        lemma_rows_first(file, first, second, n - 1);
        assert((first + second)[n - 1] == first[n - 1]);
    }
}

proof fn lemma_rows_second(file: Seq<char>, first: Seq<SpawnText>, second: Seq<SpawnText>, n: int)
    requires
        0 <= n <= second.len(),
    ensures
        spawn_rows(file, first + second, first.len() + n) == spawn_rows(
            file,
            first,
            first.len() as int,
        ) + spawn_rows(file, second, n),
    decreases n,
{
    let head = spawn_rows(file, first, first.len() as int);
    lemma_rows_first(file, first, second, first.len() as int);
    if n > 0 {
        lemma_rows_second(file, first, second, n - 1);
        assert((first + second)[first.len() + n - 1] == second[n - 1]);
        assert(spawn_rows(file, first + second, first.len() + n) =~= head + spawn_rows(
            file,
            second,
            n,
        ));
    } else {
        assert(head + spawn_rows(file, second, 0) =~= head);
    }
}

} // verus!
