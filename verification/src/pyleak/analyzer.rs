//! The six checks for leak patterns, and what they find in a file.

use crate::order::lemma_insert_multiset;
use crate::pyleak::matches::{
    cache_patterns_compile, caches_in, container_patterns_compile, container_texts, containers_in,
    find_caches, find_containers, find_opened, find_registries, find_threads, opened_in,
    opened_patterns_compile, opened_texts, registries_in, registry_patterns_compile,
    registry_texts, thread_patterns_compile, thread_texts, threads_in, CacheKind, CacheMark,
    Container, ContainerText, OpenedFile, OpenedText, Registry, RegistryText, StartedThread,
    ThreadText, FINALIZER_PATTERN,
};
use crate::pyleak::path::{FilePath, PathText};
use crate::pyleak::pattern::{accepts, match_lines, matching, regex_accepts};
use crate::pyleak::scanner::{
    blocks, class_spans, classes_of, enclosing, enclosing_class, enclosing_function, func_spans,
    functions_of, headers_in, innermost, innermost_function, law_blocks, law_innermost,
    parse_classes, parse_functions, ClassSpan, FuncSpan, Span, CLASS_PATTERN, DEF_PATTERN,
};
use crate::tally::{counts, keys_of, law_tally, occurrences, tallied, tally, Count};
use crate::text::{
    before, begins, begins_with, copy_opt, decimal, decimal_text, lines_of, occurs, opt_text,
    split_lines, stands_at, starts_with, str_texts, text_after, text_before, texts, trim,
    trim_start, trimmed, trimmed_start,
};
use vstd::prelude::*;

verus! {

// ---- findings ------------------------------------------------------------------------------

/// How grave a finding is.
#[derive(Debug, Clone, Copy, PartialEq, Eq, PartialOrd, Ord, Structural)]
pub enum Severity {
    Low,
    Medium,
    High,
}

/// The word that shows a severity.
pub open spec fn severity_text(s: Severity) -> Seq<char> {
    match s {
        Severity::Low => "LOW"@,
        Severity::Medium => "MED"@,
        Severity::High => "HIGH"@,
    }
}

impl Severity {
    /// The word that shows the severity.
    pub fn text(&self) -> (r: &'static str)
        ensures
            r@ == severity_text(*self),
    {
        match self {
            Severity::Low => "LOW",
            Severity::Medium => "MED",
            Severity::High => "HIGH",
        }
    }
}

/// A suspect: the file, the function where one is to blame, the line counted from one, and
/// what is suspected.
#[derive(Debug)]
pub struct Finding {
    pub file: FilePath,
    pub function: Option<String>,
    pub line: usize,
    pub severity: Severity,
    pub category: &'static str,
    pub message: String,
}

/// What a finding says.
pub struct FindingText {
    pub file: PathText,
    pub function: Option<Seq<char>>,
    pub line: int,
    pub severity: Severity,
    pub category: Seq<char>,
    pub message: Seq<char>,
}

impl View for Finding {
    type V = FindingText;

    open spec fn view(&self) -> FindingText {
        FindingText {
            file: self.file@,
            function: opt_text(self.function),
            line: self.line as int,
            severity: self.severity,
            category: self.category@,
            message: self.message@,
        }
    }
}

impl Clone for Finding {
    fn clone(&self) -> (r: Self)
        ensures
            r@ == self@,
    {
        Finding {
            file: self.file.clone(),
            function: copy_opt(&self.function),
            line: self.line,
            severity: self.severity,
            category: self.category,
            message: self.message.clone(),
        }
    }
}

/// What findings say.
pub open spec fn finding_texts(s: Seq<Finding>) -> Seq<FindingText> {
    Seq::new(s.len(), |i: int| s[i]@)
}

/// Adds a finding to the end.
fn add_finding(findings: &mut Vec<Finding>, finding: Finding)
    ensures
        finding_texts(final(findings)@) == finding_texts(old(findings)@).push(finding@),
{
    findings.push(finding);
    assert(finding_texts(findings@) =~= finding_texts(old(findings)@).push(finding@));
}

// ---- module-level containers -----------------------------------------------------------

/// The positions before `n`, other than `line`, that are marked.
pub open spec fn sites(marks: Seq<bool>, line: int, n: int) -> Seq<int>
    decreases n,
{
    if n <= 0 {
        seq![]
    } else if marks[n - 1] && n - 1 != line {
        sites(marks, line, n - 1).push(n - 1)
    } else {
        sites(marks, line, n - 1)
    }
}

/// For each position, the function around it.
pub open spec fn functions_around(spans: Seq<Span>, positions: Seq<int>) -> Seq<
    Option<Seq<char>>,
> {
    Seq::new(positions.len(), |i: int| enclosing(spans, positions[i]))
}

/// What is said of a container that grows at `count` places.
pub open spec fn container_message(name: Seq<char>, count: nat) -> Seq<char> {
    "module-level container '"@ + name + "' is grown ("@ + decimal(count)
        + " site(s)) but never cleared, popped, or reassigned anywhere in this file — it will grow for the life of the process"@
}

/// The finding on a container that one function grows.
pub open spec fn container_finding(file: PathText, c: ContainerText, grown: Count) -> FindingText {
    FindingText {
        file,
        function: grown.0,
        line: c.line + 1,
        severity: Severity::High,
        category: "unbounded-global-container"@,
        message: container_message(c.name, grown.1),
    }
}

/// For each function that grows a container, how often it does so; nothing if the container
/// shrinks anywhere. Its own line does not count.
pub open spec fn growers(spans: Seq<Span>, c: ContainerText) -> Seq<Count> {
    if sites(c.shrinks, c.line, c.shrinks.len() as int).len() > 0 {
        seq![]
    } else {
        tallied(functions_around(spans, sites(c.grows, c.line, c.grows.len() as int)))
    }
}

/// The findings on one container, one for each function that grows it.
pub open spec fn container_findings(
    file: PathText,
    spans: Seq<Span>,
    c: ContainerText,
) -> Seq<FindingText> {
    let grown = growers(spans, c);
    Seq::new(grown.len(), |k: int| container_finding(file, c, grown[k]))
}

/// The findings on the first `n` containers.
pub open spec fn all_container_findings(
    file: PathText,
    spans: Seq<Span>,
    containers: Seq<ContainerText>,
    n: int,
) -> Seq<FindingText>
    decreases n,
{
    if n <= 0 {
        seq![]
    } else {
        all_container_findings(file, spans, containers, n - 1) + container_findings(
            file,
            spans,
            containers[n - 1],
        )
    }
}

/// The findings on the containers of a file.
pub open spec fn containers_found(
    file: PathText,
    lines: Seq<Seq<char>>,
    spans: Seq<Span>,
) -> Seq<FindingText> {
    let containers = containers_in(lines, lines.len() as int);
    all_container_findings(file, spans, containers, containers.len() as int)
}

/// The marked positions other than `line`.
fn collect_sites(marks: &Vec<bool>, line: usize) -> (r: Vec<usize>)
    ensures
        Seq::new(r@.len(), |i: int| r@[i] as int) == sites(marks@, line as int, marks@.len() as int),
{
    let mut r: Vec<usize> = Vec::new();
    let mut i: usize = 0;
    assert(Seq::new(r@.len(), |i: int| r@[i] as int) =~= seq![]);
    while i < marks.len()
        invariant
            i <= marks@.len(),
            Seq::new(r@.len(), |i: int| r@[i] as int) == sites(marks@, line as int, i as int),
        decreases marks@.len() - i,
    {
        if marks[i] && i != line {
            let ghost kept = Seq::new(r@.len(), |i: int| r@[i] as int);
            r.push(i);
            assert(Seq::new(r@.len(), |i: int| r@[i] as int) =~= kept.push(i as int));
        }
        i = i + 1;
    }
    r
}

fn make_container_message(name: &str, count: usize) -> (r: String)
    ensures
        r@ == container_message(name@, count as nat),
{
    let mut r = String::from_str("module-level container '");
    r.append(name);
    r.append("' is grown (");
    r.append(&decimal_text(count as u128));
    r.append(
        " site(s)) but never cleared, popped, or reassigned anywhere in this file — it will grow for the life of the process",
    );
    r
}

/// Adds the findings on one container.
fn report_container(
    file: &FilePath,
    container: &Container,
    funcs: &[FuncSpan],
    findings: &mut Vec<Finding>,
)
    requires
        container.line < usize::MAX,
    ensures
        finding_texts(final(findings)@) == finding_texts(old(findings)@) + container_findings(
            file@,
            func_spans(funcs@),
            container@,
        ),
{
    let ghost spans = func_spans(funcs@);
    let ghost start = finding_texts(findings@);
    let shrunk = collect_sites(&container.shrinks, container.line);
    let grown = collect_sites(&container.grows, container.line);
    let ghost positions = sites(
        container@.grows,
        container@.line,
        container@.grows.len() as int,
    );
    assert(shrunk@.len() == Seq::new(shrunk@.len(), |i: int| shrunk@[i] as int).len());
    if shrunk.len() > 0 {
        assert(finding_texts(findings@) =~= start + container_findings(file@, spans, container@));
        return;
    }
    let mut around: Vec<Option<String>> = Vec::new();
    let mut i: usize = 0;
    while i < grown.len()
        invariant
            i <= grown@.len() == positions.len(),
            around@.len() == i,
            spans == func_spans(funcs@),
            positions == Seq::new(grown@.len(), |i: int| grown@[i] as int),
            forall|k: int|
                0 <= k < i ==> opt_text(#[trigger] around@[k]) == enclosing(spans, positions[k]),
        decreases grown@.len() - i,
    {
        around.push(enclosing_function(funcs, grown[i]));
        i = i + 1;
    }
    assert(keys_of(around@) =~= functions_around(spans, positions));
    let by_func = tally(&around);
    let ghost tallies = growers(spans, container@);
    let ghost wanted = container_findings(file@, spans, container@);
    let mut k: usize = 0;
    assert(finding_texts(findings@) =~= start + wanted.take(0));
    while k < by_func.len()
        invariant
            k <= by_func@.len() == wanted.len(),
            container.line < usize::MAX,
            counts(by_func@) == tallies,
            tallies == growers(spans, container@),
            wanted == container_findings(file@, spans, container@),
            finding_texts(findings@) == start + wanted.take(k as int),
        decreases by_func@.len() - k,
    {
        assert(tallies[k as int] == (opt_text(by_func@[k as int].0), by_func@[k as int].1 as nat));
        let finding = Finding {
            file: file.clone(),
            function: copy_opt(&by_func[k].0),
            line: container.line + 1,
            severity: Severity::High,
            category: "unbounded-global-container",
            message: make_container_message(&container.name, by_func[k].1),
        };
        assert(finding@ == wanted[k as int]);
        add_finding(findings, finding);
        k = k + 1;
        assert((start + wanted.take(k - 1)).push(wanted[k - 1]) =~= start + wanted.take(k as int));
    }
    assert(wanted.take(k as int) =~= wanted);
}

/// Adds the findings on the given containers.
pub fn report_containers(
    file: &FilePath,
    containers: &Vec<Container>,
    funcs: &[FuncSpan],
    findings: &mut Vec<Finding>,
)
    requires
        forall|i: int| 0 <= i < containers@.len() ==> (#[trigger] containers@[i]).line < usize::MAX,
    ensures
        finding_texts(final(findings)@) == finding_texts(old(findings)@) + all_container_findings(
            file@,
            func_spans(funcs@),
            container_texts(containers@),
            containers@.len() as int,
        ),
{
    let ghost spans = func_spans(funcs@);
    let ghost all = container_texts(containers@);
    let ghost start = finding_texts(findings@);
    let mut n: usize = 0;
    assert(finding_texts(findings@) =~= start + all_container_findings(file@, spans, all, 0));
    while n < containers.len()
        invariant
            n <= containers@.len(),
            spans == func_spans(funcs@),
            all == container_texts(containers@),
            forall|i: int|
                0 <= i < containers@.len() ==> (#[trigger] containers@[i]).line < usize::MAX,
            finding_texts(findings@) == start + all_container_findings(
                file@,
                spans,
                all,
                n as int,
            ),
        decreases containers@.len() - n,
    {
        report_container(file, &containers[n], funcs, findings);
        n = n + 1;
        assert(finding_texts(findings@) =~= start + all_container_findings(
            file@,
            spans,
            all,
            n as int,
        ));
    }
}

/// Every container was made by one of the lines.
proof fn lemma_containers_in(lines: Seq<Seq<char>>, n: int)
    requires
        0 <= n <= lines.len(),
    ensures
        forall|k: int|
            0 <= k < containers_in(lines, n).len() ==> 0 <= (#[trigger] containers_in(
                lines,
                n,
            )[k]).line < n,
    decreases n,
{
    if n > 0 {
        lemma_containers_in(lines, n - 1);
        let fewer = containers_in(lines, n - 1);
        let all = containers_in(lines, n);
        assert(forall|k: int| 0 <= k < fewer.len() ==> fewer[k] == #[trigger] all[k]);
    }
}

/// A module-level list, dict or set that functions keep appending to, with no clear, pop or
/// reassignment anywhere in the file: the classic unbounded cache.
pub fn check_unbounded_module_containers(
    path: &FilePath,
    lines: &[&str],
    funcs: &[FuncSpan],
    findings: &mut Vec<Finding>,
)
    requires
        container_patterns_compile(str_texts(lines@)),
    ensures
        finding_texts(final(findings)@) == finding_texts(old(findings)@) + containers_found(
            path@,
            str_texts(lines@),
            func_spans(funcs@),
        ),
{
    let count: usize = lines.len();
    if let Some(containers) = find_containers(lines) {
        proof {
            lemma_containers_in(str_texts(lines@), lines@.len() as int);
            let all = container_texts(containers@);
            assert forall|i: int| 0 <= i < containers@.len() implies (
            #[trigger] containers@[i]).line < usize::MAX by {
                assert(all[i].line == containers@[i].line);
                assert(all[i].line < count);
            }
        }
        report_containers(path, &containers, funcs, findings);
    }
}

// ---- caches --------------------------------------------------------------------------------

/// The function that a decorator applies to, where `j` is the line below it: the name on
/// the next `def` or `async def` line, if only decorators stand before it.
pub open spec fn decorated_function(lines: Seq<Seq<char>>, j: int) -> Option<Seq<char>>
    decreases lines.len() - j,
{
    if j >= lines.len() {
        None
    } else {
        let t = trimmed_start(lines[j]);
        if stands_at(t, "def "@, 0) {
            Some(trimmed(before(t.skip(4), '(')))
        } else if stands_at(t, "async def "@, 0) {
            Some(trimmed(before(t.skip(10), '(')))
        } else if begins(t, '@') {
            decorated_function(lines, j + 1)
        } else {
            None
        }
    }
}

/// What is said of a cache without a limit.
pub open spec fn cache_message(kind: CacheKind) -> Seq<char> {
    (match kind {
        CacheKind::Cache => "@cache"@,
        CacheKind::LruCache => "@lru_cache"@,
    })
        + " has no maxsize, so cached results accumulate for every distinct argument forever; consider maxsize=N or a TTL-based cache"@
}

/// The finding on the cache decorator of line `i`.
pub open spec fn cache_finding(
    file: PathText,
    lines: Seq<Seq<char>>,
    i: int,
    mark: CacheMark,
) -> FindingText {
    FindingText {
        file,
        function: decorated_function(lines, mark.below as int),
        line: i + 1,
        severity: Severity::Medium,
        category: "unbounded-cache"@,
        message: cache_message(mark.kind),
    }
}

/// The findings on the cache decorators of the first `n` lines, where `marks[i]` is that of
/// line `i`.
pub open spec fn cache_findings(
    file: PathText,
    marks: Seq<Option<CacheMark>>,
    lines: Seq<Seq<char>>,
    n: int,
) -> Seq<FindingText>
    decreases n,
{
    if n <= 0 {
        seq![]
    } else {
        match marks[n - 1] {
            Some(mark) => cache_findings(file, marks, lines, n - 1).push(
                cache_finding(file, lines, n - 1, mark),
            ),
            None => cache_findings(file, marks, lines, n - 1),
        }
    }
}

/// The findings on the caches of a file.
pub open spec fn caches_found(file: PathText, lines: Seq<Seq<char>>) -> Seq<FindingText> {
    cache_findings(file, caches_in(lines), lines, lines.len() as int)
}

fn find_decorated(lines: &[&str], from: usize) -> (r: Option<String>)
    ensures
        opt_text(r) == decorated_function(str_texts(lines@), from as int),
{
    let mut j: usize = from;
    while j < lines.len()
        invariant
            decorated_function(str_texts(lines@), from as int) == decorated_function(
                str_texts(lines@),
                j as int,
            ),
        decreases lines@.len() - j,
    {
        let t = trim_start(lines[j]);
        if starts_with(&t, "def ") {
            proof {
                reveal_strlit("def ");
            }
            return Some(trim(&text_before(&text_after(&t, 4), '(')));
        }
        if starts_with(&t, "async def ") {
            proof {
                reveal_strlit("async def ");
            }
            return Some(trim(&text_before(&text_after(&t, 10), '(')));
        }
        if !begins_with(&t, '@') {
            return None;
        }
        j = j + 1;
    }
    None
}

fn make_cache_message(kind: CacheKind) -> (r: String)
    ensures
        r@ == cache_message(kind),
{
    let mut r = match kind {
        CacheKind::Cache => String::from_str("@cache"),
        CacheKind::LruCache => String::from_str("@lru_cache"),
    };
    r.append(
        " has no maxsize, so cached results accumulate for every distinct argument forever; consider maxsize=N or a TTL-based cache",
    );
    r
}

/// Adds the findings on the cache decorators, where `marks[i]` is that of line `i`.
pub fn report_caches(
    file: &FilePath,
    marks: &Vec<Option<CacheMark>>,
    lines: &[&str],
    findings: &mut Vec<Finding>,
)
    requires
        marks@.len() == lines@.len(),
    ensures
        finding_texts(final(findings)@) == finding_texts(old(findings)@) + cache_findings(
            file@,
            marks@,
            str_texts(lines@),
            lines@.len() as int,
        ),
{
    let ghost start = finding_texts(findings@);
    let ghost all = str_texts(lines@);
    let mut i: usize = 0;
    assert(finding_texts(findings@) =~= start + cache_findings(file@, marks@, all, 0));
    while i < lines.len()
        invariant
            i <= lines@.len() == marks@.len(),
            all == str_texts(lines@),
            finding_texts(findings@) == start + cache_findings(file@, marks@, all, i as int),
        decreases lines@.len() - i,
    {
        if let Some(mark) = marks[i] {
            let finding = Finding {
                file: file.clone(),
                function: find_decorated(lines, mark.below),
                line: i + 1,
                severity: Severity::Medium,
                category: "unbounded-cache",
                message: make_cache_message(mark.kind),
            };
            assert(finding@ == cache_finding(file@, all, i as int, mark));
            add_finding(findings, finding);
        }
        i = i + 1;
        assert(finding_texts(findings@) =~= start + cache_findings(file@, marks@, all, i as int));
    }
}

/// `functools.lru_cache` or `functools.cache` without a `maxsize`, which grows forever.
pub fn check_unbounded_caches(path: &FilePath, lines: &[&str], findings: &mut Vec<Finding>)
    requires
        cache_patterns_compile(),
    ensures
        finding_texts(final(findings)@) == finding_texts(old(findings)@) + caches_found(
            path@,
            str_texts(lines@),
        ),
{
    if let Some(marks) = find_caches(lines) {
        report_caches(path, &marks, lines, findings);
    }
}

// ---- scopes --------------------------------------------------------------------------------

/// The lines of the scope that a line belongs to: those of the innermost function around it,
/// or all `n` lines of the file where there is none.
pub open spec fn scope_of(spans: Seq<Span>, line: int, n: int) -> (int, int) {
    match innermost(spans, line) {
        Some(i) => (spans[i].start, spans[i].end),
        None => (0, n),
    }
}

/// Whether a position of a range is marked.
pub open spec fn any_marked(marks: Seq<bool>, range: (int, int)) -> bool {
    exists|k: int| range.0 <= k < range.1 && #[trigger] marks[k]
}

/// Whether a position of the scope of a line is marked.
pub open spec fn marked_in_scope(spans: Seq<Span>, line: int, marks: Seq<bool>) -> bool {
    any_marked(marks, scope_of(spans, line, marks.len() as int))
}

/// Whether the scope of a line lies within `n` lines.
pub open spec fn scope_fits(spans: Seq<Span>, line: int, n: int) -> bool {
    scope_of(spans, line, n).1 <= n
}

/// Whether a position of the scope of a line is marked.
fn is_marked_in_scope(funcs: &[FuncSpan], line: usize, marks: &Vec<bool>) -> (r: bool)
    requires
        scope_fits(func_spans(funcs@), line as int, marks@.len() as int),
    ensures
        r == marked_in_scope(func_spans(funcs@), line as int, marks@),
{
    let ghost spans = func_spans(funcs@);
    let (from, to) = match innermost_function(funcs, line) {
        Some(i) => {
            assert(spans[i as int] == funcs@[i as int]@);
            (funcs[i].start, funcs[i].end)
        },
        None => (0, marks.len()),
    };
    let mut k: usize = from;
    while k < to
        invariant
            from <= k,
            to <= marks@.len(),
            spans == func_spans(funcs@),
            (from as int, to as int) == scope_of(spans, line as int, marks@.len() as int),
            forall|m: int| from <= m < k ==> !#[trigger] marks@[m],
        decreases to - k,
    {
        if marks[k] {
            assert(any_marked(marks@, (from as int, to as int)));
            return true;
        }
        k = k + 1;
    }
    false
}

// ---- opened files --------------------------------------------------------------------------

/// What is said of a file that is not closed.
pub open spec fn opened_message(name: Seq<char>) -> Seq<char> {
    "'"@ + name
        + "' is assigned from open() outside a `with` block and never explicitly closed in this scope — prefer `with open(...) as "@
        + name + ":`"@
}

/// The finding on a file that is not closed.
pub open spec fn opened_finding(file: PathText, spans: Seq<Span>, o: OpenedText) -> FindingText {
    FindingText {
        file,
        function: enclosing(spans, o.line),
        line: o.line + 1,
        severity: Severity::Medium,
        category: "unclosed-file-handle"@,
        message: opened_message(o.name),
    }
}

/// The findings on the first `n` opened files: those that nothing in their scope closes.
pub open spec fn opened_findings(
    file: PathText,
    spans: Seq<Span>,
    opened: Seq<OpenedText>,
    n: int,
) -> Seq<FindingText>
    decreases n,
{
    if n <= 0 {
        seq![]
    } else if marked_in_scope(spans, opened[n - 1].line, opened[n - 1].closes) {
        opened_findings(file, spans, opened, n - 1)
    } else {
        opened_findings(file, spans, opened, n - 1).push(
            opened_finding(file, spans, opened[n - 1]),
        )
    }
}

/// The findings on the opened files of a file.
pub open spec fn opened_found(
    file: PathText,
    lines: Seq<Seq<char>>,
    spans: Seq<Span>,
) -> Seq<FindingText> {
    let opened = opened_in(lines, lines.len() as int);
    opened_findings(file, spans, opened, opened.len() as int)
}

/// Whether the scope of each opened file lies within the lines.
pub open spec fn opened_scopes_fit(spans: Seq<Span>, opened: Seq<OpenedText>) -> bool {
    forall|k: int|
        0 <= k < opened.len() ==> scope_fits(
            spans,
            (#[trigger] opened[k]).line,
            opened[k].closes.len() as int,
        )
}

fn make_opened_message(name: &str) -> (r: String)
    ensures
        r@ == opened_message(name@),
{
    let mut r = String::from_str("'");
    r.append(name);
    r.append(
        "' is assigned from open() outside a `with` block and never explicitly closed in this scope — prefer `with open(...) as ",
    );
    r.append(name);
    r.append(":`");
    r
}

/// Adds the findings on the given opened files.
pub fn report_opened(
    file: &FilePath,
    opened: &Vec<OpenedFile>,
    funcs: &[FuncSpan],
    findings: &mut Vec<Finding>,
)
    requires
        forall|i: int| 0 <= i < opened@.len() ==> (#[trigger] opened@[i]).line < usize::MAX,
        opened_scopes_fit(func_spans(funcs@), opened_texts(opened@)),
    ensures
        finding_texts(final(findings)@) == finding_texts(old(findings)@) + opened_findings(
            file@,
            func_spans(funcs@),
            opened_texts(opened@),
            opened@.len() as int,
        ),
{
    let ghost spans = func_spans(funcs@);
    let ghost all = opened_texts(opened@);
    let ghost start = finding_texts(findings@);
    let mut n: usize = 0;
    assert(finding_texts(findings@) =~= start + opened_findings(file@, spans, all, 0));
    while n < opened.len()
        invariant
            n <= opened@.len(),
            spans == func_spans(funcs@),
            all == opened_texts(opened@),
            forall|i: int| 0 <= i < opened@.len() ==> (#[trigger] opened@[i]).line < usize::MAX,
            opened_scopes_fit(spans, all),
            finding_texts(findings@) == start + opened_findings(file@, spans, all, n as int),
        decreases opened@.len() - n,
    {
        let o = &opened[n];
        assert(all[n as int] == o@);
        if !is_marked_in_scope(funcs, o.line, &o.closes) {
            let finding = Finding {
                file: file.clone(),
                function: enclosing_function(funcs, o.line),
                line: o.line + 1,
                severity: Severity::Medium,
                category: "unclosed-file-handle",
                message: make_opened_message(&o.name),
            };
            assert(finding@ == opened_finding(file@, spans, all[n as int]));
            add_finding(findings, finding);
        }
        n = n + 1;
        assert(finding_texts(findings@) =~= start + opened_findings(file@, spans, all, n as int));
    }
}

/// Every opened file was opened by one of the lines, and each line is marked or not.
proof fn lemma_opened_in(lines: Seq<Seq<char>>, n: int)
    requires
        0 <= n <= lines.len(),
    ensures
        forall|k: int|
            0 <= k < opened_in(lines, n).len() ==> {
                &&& 0 <= (#[trigger] opened_in(lines, n)[k]).line < n
                &&& opened_in(lines, n)[k].closes.len() == lines.len()
            },
    decreases n,
{
    if n > 0 {
        lemma_opened_in(lines, n - 1);
        let fewer = opened_in(lines, n - 1);
        let all = opened_in(lines, n);
        assert(forall|k: int| 0 <= k < fewer.len() ==> fewer[k] == #[trigger] all[k]);
    }
}

/// `x = open(...)` outside a `with` block, with no matching `x.close()` anywhere in the same
/// function.
pub fn check_unclosed_files(
    path: &FilePath,
    lines: &[&str],
    funcs: &[FuncSpan],
    findings: &mut Vec<Finding>,
)
    requires
        opened_patterns_compile(str_texts(lines@)),
        opened_scopes_fit(
            func_spans(funcs@),
            opened_in(str_texts(lines@), lines@.len() as int),
        ),
    ensures
        finding_texts(final(findings)@) == finding_texts(old(findings)@) + opened_found(
            path@,
            str_texts(lines@),
            func_spans(funcs@),
        ),
{
    let count: usize = lines.len();
    if let Some(opened) = find_opened(lines) {
        proof {
            lemma_opened_in(str_texts(lines@), lines@.len() as int);
            let all = opened_texts(opened@);
            assert forall|i: int| 0 <= i < opened@.len() implies (#[trigger] opened@[i]).line
                < usize::MAX by {
                assert(all[i].line == opened@[i].line);
                assert(all[i].line < count);
            }
        }
        report_opened(path, &opened, funcs, findings);
    }
}

// ---- threads -------------------------------------------------------------------------------

/// What is said of a thread that is not joined.
pub open spec fn thread_message(kind: Seq<char>, name: Seq<char>) -> Seq<char> {
    kind + " '"@ + name
        + "' is created without daemon=True and never joined in this scope — if these accumulate across calls, the thread objects (and their frames) won't be collected"@
}

/// The finding on a thread that is not joined.
pub open spec fn thread_finding(file: PathText, spans: Seq<Span>, t: ThreadText) -> FindingText {
    FindingText {
        file,
        function: enclosing(spans, t.line),
        line: t.line + 1,
        severity: Severity::Low,
        category: "dangling-thread"@,
        message: thread_message(t.kind, t.name),
    }
}

/// The findings on the first `n` threads: those that nothing in their scope joins.
pub open spec fn thread_findings(
    file: PathText,
    spans: Seq<Span>,
    threads: Seq<ThreadText>,
    n: int,
) -> Seq<FindingText>
    decreases n,
{
    if n <= 0 {
        seq![]
    } else if marked_in_scope(spans, threads[n - 1].line, threads[n - 1].joins) {
        thread_findings(file, spans, threads, n - 1)
    } else {
        thread_findings(file, spans, threads, n - 1).push(
            thread_finding(file, spans, threads[n - 1]),
        )
    }
}

/// The findings on the threads of a file.
pub open spec fn threads_found(
    file: PathText,
    lines: Seq<Seq<char>>,
    spans: Seq<Span>,
) -> Seq<FindingText> {
    let threads = threads_in(lines, lines.len() as int);
    thread_findings(file, spans, threads, threads.len() as int)
}

/// Whether the scope of each thread lies within the lines.
pub open spec fn thread_scopes_fit(spans: Seq<Span>, threads: Seq<ThreadText>) -> bool {
    forall|k: int|
        0 <= k < threads.len() ==> scope_fits(
            spans,
            (#[trigger] threads[k]).line,
            threads[k].joins.len() as int,
        )
}

fn make_thread_message(kind: &str, name: &str) -> (r: String)
    ensures
        r@ == thread_message(kind@, name@),
{
    let mut r = String::from_str(kind);
    r.append(" '");
    r.append(name);
    r.append(
        "' is created without daemon=True and never joined in this scope — if these accumulate across calls, the thread objects (and their frames) won't be collected",
    );
    r
}

/// Adds the findings on the given threads.
pub fn report_threads(
    file: &FilePath,
    threads: &Vec<StartedThread>,
    funcs: &[FuncSpan],
    findings: &mut Vec<Finding>,
)
    requires
        forall|i: int| 0 <= i < threads@.len() ==> (#[trigger] threads@[i]).line < usize::MAX,
        thread_scopes_fit(func_spans(funcs@), thread_texts(threads@)),
    ensures
        finding_texts(final(findings)@) == finding_texts(old(findings)@) + thread_findings(
            file@,
            func_spans(funcs@),
            thread_texts(threads@),
            threads@.len() as int,
        ),
{
    let ghost spans = func_spans(funcs@);
    let ghost all = thread_texts(threads@);
    let ghost start = finding_texts(findings@);
    let mut n: usize = 0;
    assert(finding_texts(findings@) =~= start + thread_findings(file@, spans, all, 0));
    while n < threads.len()
        invariant
            n <= threads@.len(),
            spans == func_spans(funcs@),
            all == thread_texts(threads@),
            forall|i: int| 0 <= i < threads@.len() ==> (#[trigger] threads@[i]).line < usize::MAX,
            thread_scopes_fit(spans, all),
            finding_texts(findings@) == start + thread_findings(file@, spans, all, n as int),
        decreases threads@.len() - n,
    {
        let t = &threads[n];
        assert(all[n as int] == t@);
        if !is_marked_in_scope(funcs, t.line, &t.joins) {
            let finding = Finding {
                file: file.clone(),
                function: enclosing_function(funcs, t.line),
                line: t.line + 1,
                severity: Severity::Low,
                category: "dangling-thread",
                message: make_thread_message(&t.kind, &t.name),
            };
            assert(finding@ == thread_finding(file@, spans, all[n as int]));
            add_finding(findings, finding);
        }
        n = n + 1;
        assert(finding_texts(findings@) =~= start + thread_findings(file@, spans, all, n as int));
    }
}

/// Every thread was made by one of the lines, and each line is marked or not.
proof fn lemma_threads_in(lines: Seq<Seq<char>>, n: int)
    requires
        0 <= n <= lines.len(),
    ensures
        forall|k: int|
            0 <= k < threads_in(lines, n).len() ==> {
                &&& 0 <= (#[trigger] threads_in(lines, n)[k]).line < n
                &&& threads_in(lines, n)[k].joins.len() == lines.len()
            },
    decreases n,
{
    if n > 0 {
        lemma_threads_in(lines, n - 1);
        let fewer = threads_in(lines, n - 1);
        let all = threads_in(lines, n);
        assert(forall|k: int| 0 <= k < fewer.len() ==> fewer[k] == #[trigger] all[k]);
    }
}

/// A `threading.Thread` or `threading.Timer` made without `.join()` and without
/// `daemon=True`, so that live thread objects can pile up.
pub fn check_threads_without_join(
    path: &FilePath,
    lines: &[&str],
    funcs: &[FuncSpan],
    findings: &mut Vec<Finding>,
)
    requires
        thread_patterns_compile(str_texts(lines@)),
        thread_scopes_fit(
            func_spans(funcs@),
            threads_in(str_texts(lines@), lines@.len() as int),
        ),
    ensures
        finding_texts(final(findings)@) == finding_texts(old(findings)@) + threads_found(
            path@,
            str_texts(lines@),
            func_spans(funcs@),
        ),
{
    let count: usize = lines.len();
    if let Some(threads) = find_threads(lines) {
        proof {
            lemma_threads_in(str_texts(lines@), lines@.len() as int);
            let all = thread_texts(threads@);
            assert forall|i: int| 0 <= i < threads@.len() implies (#[trigger] threads@[i]).line
                < usize::MAX by {
                assert(all[i].line == threads@[i].line);
                assert(all[i].line < count);
            }
        }
        report_threads(path, &threads, funcs, findings);
    }
}

// ---- registries ----------------------------------------------------------------------------

/// What is said of a registry that nothing is removed from.
pub open spec fn registry_message(name: Seq<char>) -> Seq<char> {
    "'"@ + name
        + "' looks like a listener/callback registry — entries are appended here but nothing in this file ever removes from '"@
        + name + "', so registered callbacks (and whatever they close over) accumulate"@
}

/// The finding on the registration at line `i`.
pub open spec fn registry_finding(
    file: PathText,
    spans: Seq<Span>,
    name: Seq<char>,
    i: int,
) -> FindingText {
    FindingText {
        file,
        function: enclosing(spans, i),
        line: i + 1,
        severity: Severity::Medium,
        category: "unremoved-listener"@,
        message: registry_message(name),
    }
}

/// The findings on the registrations at the first `n` lines.
pub open spec fn registrations(
    file: PathText,
    spans: Seq<Span>,
    r: RegistryText,
    n: int,
) -> Seq<FindingText>
    decreases n,
{
    if n <= 0 {
        seq![]
    } else if r.appends[n - 1] {
        registrations(file, spans, r, n - 1).push(registry_finding(file, spans, r.name, n - 1))
    } else {
        registrations(file, spans, r, n - 1)
    }
}

/// The findings on the first `n` registries: none on one that something is removed from.
pub open spec fn registry_findings(
    file: PathText,
    spans: Seq<Span>,
    registries: Seq<RegistryText>,
    n: int,
) -> Seq<FindingText>
    decreases n,
{
    if n <= 0 {
        seq![]
    } else if registries[n - 1].removes.contains(true) {
        registry_findings(file, spans, registries, n - 1)
    } else {
        registry_findings(file, spans, registries, n - 1) + registrations(
            file,
            spans,
            registries[n - 1],
            registries[n - 1].appends.len() as int,
        )
    }
}

/// The findings on the registries of a file.
pub open spec fn registries_found(
    file: PathText,
    lines: Seq<Seq<char>>,
    spans: Seq<Span>,
) -> Seq<FindingText> {
    let registries = registries_in(lines);
    registry_findings(file, spans, registries, registries.len() as int)
}

fn make_registry_message(name: &str) -> (r: String)
    ensures
        r@ == registry_message(name@),
{
    let mut r = String::from_str("'");
    r.append(name);
    r.append(
        "' looks like a listener/callback registry — entries are appended here but nothing in this file ever removes from '",
    );
    r.append(name);
    r.append("', so registered callbacks (and whatever they close over) accumulate");
    r
}

fn has_mark(marks: &Vec<bool>) -> (r: bool)
    ensures
        r == marks@.contains(true),
{
    let mut i: usize = 0;
    while i < marks.len()
        invariant
            i <= marks@.len(),
            forall|k: int| 0 <= k < i ==> !marks@[k],
        decreases marks@.len() - i,
    {
        if marks[i] {
            assert(marks@[i as int] == true);
            return true;
        }
        i = i + 1;
    }
    false
}

/// Adds the findings on the registrations of one registry.
fn report_registrations(
    file: &FilePath,
    registry: &Registry,
    funcs: &[FuncSpan],
    findings: &mut Vec<Finding>,
)
    ensures
        finding_texts(final(findings)@) == finding_texts(old(findings)@) + registrations(
            file@,
            func_spans(funcs@),
            registry@,
            registry@.appends.len() as int,
        ),
{
    let ghost spans = func_spans(funcs@);
    let ghost start = finding_texts(findings@);
    let mut i: usize = 0;
    assert(finding_texts(findings@) =~= start + registrations(file@, spans, registry@, 0));
    while i < registry.appends.len()
        invariant
            i <= registry.appends@.len(),
            spans == func_spans(funcs@),
            finding_texts(findings@) == start + registrations(file@, spans, registry@, i as int),
        decreases registry.appends@.len() - i,
    {
        if registry.appends[i] {
            let finding = Finding {
                file: file.clone(),
                function: enclosing_function(funcs, i),
                line: i + 1,
                severity: Severity::Medium,
                category: "unremoved-listener",
                message: make_registry_message(&registry.name),
            };
            assert(finding@ == registry_finding(file@, spans, registry@.name, i as int));
            add_finding(findings, finding);
        }
        i = i + 1;
        assert(finding_texts(findings@) =~= start + registrations(
            file@,
            spans,
            registry@,
            i as int,
        ));
    }
}

/// Adds the findings on the given registries.
pub fn report_registries(
    file: &FilePath,
    registries: &Vec<Registry>,
    funcs: &[FuncSpan],
    findings: &mut Vec<Finding>,
)
    ensures
        finding_texts(final(findings)@) == finding_texts(old(findings)@) + registry_findings(
            file@,
            func_spans(funcs@),
            registry_texts(registries@),
            registries@.len() as int,
        ),
{
    let ghost spans = func_spans(funcs@);
    let ghost all = registry_texts(registries@);
    let ghost start = finding_texts(findings@);
    let mut n: usize = 0;
    assert(finding_texts(findings@) =~= start + registry_findings(file@, spans, all, 0));
    while n < registries.len()
        invariant
            n <= registries@.len(),
            spans == func_spans(funcs@),
            all == registry_texts(registries@),
            finding_texts(findings@) == start + registry_findings(file@, spans, all, n as int),
        decreases registries@.len() - n,
    {
        assert(all[n as int] == registries@[n as int]@);
        if !has_mark(&registries[n].removes) {
            report_registrations(file, &registries[n], funcs, findings);
        }
        n = n + 1;
        assert(finding_texts(findings@) =~= start + registry_findings(
            file@,
            spans,
            all,
            n as int,
        ));
    }
}

/// A list named like a registry of listeners or callbacks that is appended to, while nothing
/// in the file ever removes from it: subscribed but never unsubscribed.
pub fn check_listener_registration_without_removal(
    path: &FilePath,
    lines: &[&str],
    funcs: &[FuncSpan],
    findings: &mut Vec<Finding>,
)
    requires
        registry_patterns_compile(str_texts(lines@)),
    ensures
        finding_texts(final(findings)@) == finding_texts(old(findings)@) + registries_found(
            path@,
            str_texts(lines@),
            func_spans(funcs@),
        ),
{
    if let Some(registries) = find_registries(lines) {
        report_registries(path, &registries, funcs, findings);
    }
}

// ---- finalizers ----------------------------------------------------------------------------

/// The finding on the finalizer at line `i`.
pub open spec fn finalizer_finding(file: PathText, classes: Seq<Span>, i: int) -> FindingText {
    FindingText {
        file,
        function: match enclosing(classes, i) {
            Some(name) => Some(name + ".__del__"@),
            None => None,
        },
        line: i + 1,
        severity: Severity::Low,
        category: "del-with-possible-cycle"@,
        message: "class defines __del__; if instances ever participate in a reference cycle (e.g. parent/child back-references), finalization can be delayed or skipped entirely — prefer weakref for back-references"@,
    }
}

/// The findings on the finalizers of the first `n` lines, where `marks[i]` tells whether
/// line `i` defines one.
pub open spec fn finalizer_findings(
    file: PathText,
    marks: Seq<bool>,
    classes: Seq<Span>,
    n: int,
) -> Seq<FindingText>
    decreases n,
{
    if n <= 0 {
        seq![]
    } else if marks[n - 1] {
        finalizer_findings(file, marks, classes, n - 1).push(
            finalizer_finding(file, classes, n - 1),
        )
    } else {
        finalizer_findings(file, marks, classes, n - 1)
    }
}

/// The findings on the finalizers of a file.
pub open spec fn finalizers_found(
    file: PathText,
    lines: Seq<Seq<char>>,
    classes: Seq<Span>,
) -> Seq<FindingText> {
    finalizer_findings(file, matching(FINALIZER_PATTERN@, lines), classes, lines.len() as int)
}

/// Adds the findings on the finalizers, where `marks[i]` tells whether line `i` defines one.
pub fn report_finalizers(
    file: &FilePath,
    marks: &Vec<bool>,
    classes: &[ClassSpan],
    findings: &mut Vec<Finding>,
)
    ensures
        finding_texts(final(findings)@) == finding_texts(old(findings)@) + finalizer_findings(
            file@,
            marks@,
            class_spans(classes@),
            marks@.len() as int,
        ),
{
    let ghost spans = class_spans(classes@);
    let ghost start = finding_texts(findings@);
    let mut i: usize = 0;
    assert(finding_texts(findings@) =~= start + finalizer_findings(file@, marks@, spans, 0));
    while i < marks.len()
        invariant
            i <= marks@.len(),
            spans == class_spans(classes@),
            finding_texts(findings@) == start + finalizer_findings(
                file@,
                marks@,
                spans,
                i as int,
            ),
        decreases marks@.len() - i,
    {
        if marks[i] {
            let function = match enclosing_class(classes, i) {
                Some(name) => Some(name.concat(".__del__")),
                None => None,
            };
            let finding = Finding {
                file: file.clone(),
                function,
                line: i + 1,
                severity: Severity::Low,
                category: "del-with-possible-cycle",
                message: String::from_str(
                    "class defines __del__; if instances ever participate in a reference cycle (e.g. parent/child back-references), finalization can be delayed or skipped entirely — prefer weakref for back-references",
                ),
            };
            assert(finding@ == finalizer_finding(file@, spans, i as int));
            add_finding(findings, finding);
        }
        i = i + 1;
        assert(finding_texts(findings@) =~= start + finalizer_findings(
            file@,
            marks@,
            spans,
            i as int,
        ));
    }
}

/// Classes that define `__del__`: a common source of subtle leaks and finalization bugs when
/// combined with reference cycles.
pub fn check_del_with_cycles(
    path: &FilePath,
    lines: &[&str],
    classes: &[ClassSpan],
    findings: &mut Vec<Finding>,
)
    requires
        regex_accepts(FINALIZER_PATTERN@),
    ensures
        finding_texts(final(findings)@) == finding_texts(old(findings)@) + finalizers_found(
            path@,
            str_texts(lines@),
            class_spans(classes@),
        ),
{
    if let Some(marks) = match_lines(FINALIZER_PATTERN, lines) {
        report_finalizers(path, &marks, classes, findings);
    }
}

// ---- order ---------------------------------------------------------------------------------

/// The position of the first finding from `i` on that stands at a later line than `line`, or
/// the number of findings.
pub open spec fn line_place(s: Seq<FindingText>, line: int, i: int) -> int
    decreases s.len() - i,
{
    if i >= s.len() {
        s.len() as int
    } else if s[i].line > line {
        i
    } else {
        line_place(s, line, i + 1)
    }
}

/// The findings in the order of their lines; those of one line keep their order.
pub open spec fn by_line(s: Seq<FindingText>) -> Seq<FindingText>
    decreases s.len(),
{
    if s.len() == 0 {
        s
    } else {
        let rest = by_line(s.drop_last());
        rest.insert(line_place(rest, s.last().line, 0), s.last())
    }
}

proof fn lemma_line_place(s: Seq<FindingText>, line: int, i: int)
    requires
        0 <= i <= s.len(),
    ensures
        i <= line_place(s, line, i) <= s.len(),
        forall|k: int| i <= k < line_place(s, line, i) ==> (#[trigger] s[k]).line <= line,
        line_place(s, line, i) < s.len() ==> s[line_place(s, line, i)].line > line,
    decreases s.len() - i,
{
    if i < s.len() && s[i].line <= line {
        lemma_line_place(s, line, i + 1);
    }
}

/// The findings of one line, in their order.
pub open spec fn at_line(s: Seq<FindingText>, line: int) -> Seq<FindingText> {
    s.filter(|f: FindingText| f.line == line)
}

/// Putting a finding in its place leaves the findings of every line in order, with the new
/// one after the others of its line.
proof fn lemma_insert_at_line(rest: Seq<FindingText>, last: FindingText, line: int)
    requires
        forall|i: int, j: int|
            0 <= i < j < rest.len() ==> (#[trigger] rest[i]).line <= (#[trigger] rest[j]).line,
    ensures
        at_line(rest.insert(line_place(rest, last.line, 0), last), line) == at_line(
            rest.push(last),
            line,
        ),
{
    lemma_line_place(rest, last.line, 0);
    let p = line_place(rest, last.line, 0);
    let keep = |f: FindingText| f.line == line;
    let head = rest.take(p);
    let tail = rest.skip(p);
    let one = seq![last];
    assert(rest.insert(p, last) =~= head + one + tail);
    assert(rest.push(last) =~= head + tail + one);
    Seq::filter_distributes_over_add(head + one, tail, keep);
    Seq::filter_distributes_over_add(head, one, keep);
    Seq::filter_distributes_over_add(head + tail, one, keep);
    Seq::filter_distributes_over_add(head, tail, keep);
    if line == last.line {
        assert forall|k: int| 0 <= k < tail.len() implies (#[trigger] tail[k]).line != line by {
            assert(tail[k] == rest[p + k]);
            assert(k > 0 ==> rest[p].line <= rest[p + k].line);
        }
        lemma_none_kept(tail, line);
        assert(at_line(tail, line) == tail.filter(keep));
    } else {
        lemma_none_kept(one, line);
        assert(at_line(one, line) == one.filter(keep));
    }
    assert(head.filter(keep) + one.filter(keep) + tail.filter(keep) =~= head.filter(keep)
        + tail.filter(keep) + one.filter(keep));
}

/// The findings in the order of their lines are the same findings, their lines never fall,
/// and the findings of each line keep their order.
pub proof fn law_by_line(s: Seq<FindingText>)
    ensures
        by_line(s).to_multiset() == s.to_multiset(),
        forall|i: int, j: int|
            0 <= i < j < by_line(s).len() ==> (#[trigger] by_line(s)[i]).line <= (
            #[trigger] by_line(s)[j]).line,
        forall|line: int| #[trigger] at_line(by_line(s), line) == at_line(s, line),
    decreases s.len(),
{
    if s.len() > 0 {
        let fewer = s.drop_last();
        let last = s.last();
        let rest = by_line(fewer);
        law_by_line(fewer);
        lemma_line_place(rest, last.line, 0);
        let p = line_place(rest, last.line, 0);
        let all = by_line(s);
        lemma_insert_multiset(rest, p, last);
        assert(fewer.push(last) =~= s);
        vstd::seq_lib::to_multiset_build(fewer, last);
        assert forall|i: int, j: int| 0 <= i < j < all.len() implies (#[trigger] all[i]).line <= (
        #[trigger] all[j]).line by {
            let i0 = if i < p {
                i
            } else {
                i - 1
            };
            let j0 = if j < p {
                j
            } else {
                j - 1
            };
            if i != p {
                assert(all[i] == rest[i0]);
            }
            if j != p {
                assert(all[j] == rest[j0]);
            }
            if i == p && j0 > p {
                assert(rest[p].line <= rest[j0].line);
            }
        }
        assert forall|line: int| #[trigger] at_line(all, line) == at_line(s, line) by {
            lemma_insert_at_line(rest, last, line);
            let keep = |f: FindingText| f.line == line;
            assert(rest.push(last) =~= rest + seq![last]);
            assert(s =~= fewer + seq![last]);
            Seq::filter_distributes_over_add(rest, seq![last], keep);
            Seq::filter_distributes_over_add(fewer, seq![last], keep);
            assert(at_line(rest, line) == at_line(fewer, line));
        }
    }
}

/// Where no finding stands at the line, none is kept.
proof fn lemma_none_kept(s: Seq<FindingText>, line: int)
    requires
        forall|k: int| 0 <= k < s.len() ==> (#[trigger] s[k]).line != line,
    ensures
        at_line(s, line) == Seq::<FindingText>::empty(),
    decreases s.len(),
{
    reveal(Seq::filter);
    if s.len() > 0 {
        assert forall|k: int| 0 <= k < s.drop_last().len() implies (
        #[trigger] s.drop_last()[k]).line != line by {
            assert(s.drop_last()[k] == s[k]);
        }
        lemma_none_kept(s.drop_last(), line);
        assert(s[s.len() - 1].line != line);
    }
}

/// The findings in the order of their lines; those of one line keep their order.
pub fn sort_by_line(findings: Vec<Finding>) -> (r: Vec<Finding>)
    ensures
        finding_texts(r@) == by_line(finding_texts(findings@)),
{
    let ghost all = finding_texts(findings@);
    let mut sorted: Vec<Finding> = Vec::new();
    let mut n: usize = 0;
    assert(finding_texts(sorted@) =~= by_line(all.take(0)));
    while n < findings.len()
        invariant
            n <= findings@.len(),
            all == finding_texts(findings@),
            finding_texts(sorted@) == by_line(all.take(n as int)),
        decreases findings@.len() - n,
    {
        let ghost rest = finding_texts(sorted@);
        let line: usize = findings[n].line;
        let mut i: usize = 0;
        while i < sorted.len() && sorted[i].line <= line
            invariant
                i <= sorted@.len(),
                rest == finding_texts(sorted@),
                line_place(rest, line as int, 0) == line_place(rest, line as int, i as int),
            decreases sorted@.len() - i,
        {
            assert(rest[i as int].line == sorted@[i as int].line);
            i = i + 1;
        }
        assert(i < rest.len() ==> rest[i as int].line == sorted@[i as int].line);
        sorted.insert(i, findings[n].clone());
        proof {
            assert(all.take(n + 1).drop_last() =~= all.take(n as int));
            assert(all.take(n + 1).last() == findings@[n as int]@);
            assert(finding_texts(sorted@) =~= rest.insert(i as int, findings@[n as int]@));
        }
        n = n + 1;
    }
    assert(all.take(n as int) =~= all);
    sorted
}

// ---- one file ------------------------------------------------------------------------------

/// Whether every pattern that the analysis of a file uses compiles.
pub open spec fn analysis_patterns_compile(lines: Seq<Seq<char>>) -> bool {
    &&& regex_accepts(DEF_PATTERN@)
    &&& regex_accepts(CLASS_PATTERN@)
    &&& container_patterns_compile(lines)
    &&& cache_patterns_compile()
    &&& opened_patterns_compile(lines)
    &&& thread_patterns_compile(lines)
    &&& registry_patterns_compile(lines)
    &&& regex_accepts(FINALIZER_PATTERN@)
}

/// What the six checks find, one check after the other.
pub open spec fn checks_found(file: PathText, lines: Seq<Seq<char>>) -> Seq<FindingText> {
    containers_found(file, lines, functions_of(lines)) + caches_found(file, lines) + opened_found(
        file,
        lines,
        functions_of(lines),
    ) + threads_found(file, lines, functions_of(lines)) + registries_found(
        file,
        lines,
        functions_of(lines),
    ) + finalizers_found(file, lines, classes_of(lines))
}

/// What is found in a file, in the order of the lines.
pub open spec fn findings_of(file: PathText, content: Seq<char>) -> Seq<FindingText> {
    by_line(checks_found(file, lines_of(content)))
}

/// The scopes of a file's own functions lie within the file.
proof fn lemma_scopes_fit(lines: Seq<Seq<char>>)
    ensures
        opened_scopes_fit(functions_of(lines), opened_in(lines, lines.len() as int)),
        thread_scopes_fit(functions_of(lines), threads_in(lines, lines.len() as int)),
{
    let spans = functions_of(lines);
    let n = lines.len() as int;
    let headers = headers_in(DEF_PATTERN@, lines);
    law_blocks(headers, lines, n);
    lemma_opened_in(lines, n);
    lemma_threads_in(lines, n);
    assert forall|i: int| 0 <= i < spans.len() implies (#[trigger] spans[i]).end <= n by {}
    assert forall|line: int| #[trigger] scope_fits(spans, line, n) by {
        law_innermost(spans, line);
    }
}

/// The lines of a file as string slices.
fn as_slices<'a>(lines: &'a Vec<String>) -> (r: Vec<&'a str>)
    ensures
        str_texts(r@) == texts(lines@),
{
    let mut r: Vec<&'a str> = Vec::new();
    let mut i: usize = 0;
    while i < lines.len()
        invariant
            i <= lines@.len(),
            r@.len() == i,
            forall|k: int| 0 <= k < i ==> (#[trigger] r@[k])@ == lines@[k]@,
        decreases lines@.len() - i,
    {
        r.push(lines[i].as_str());
        i = i + 1;
    }
    assert(str_texts(r@) =~= texts(lines@));
    r
}

/// What the six checks find in a file, in the order of the lines.
pub fn analyze_file(path: &FilePath, content: &str) -> (r: Vec<Finding>)
    requires
        analysis_patterns_compile(lines_of(content@)),
    ensures
        finding_texts(r@) == findings_of(path@, content@),
{
    let owned = split_lines(content);
    let slices = as_slices(&owned);
    let lines = slices.as_slice();
    let ghost all = lines_of(content@);
    let funcs = parse_functions(lines);
    let classes = parse_classes(lines);
    proof {
        lemma_scopes_fit(all);
    }
    let mut findings: Vec<Finding> = Vec::new();
    check_unbounded_module_containers(path, lines, funcs.as_slice(), &mut findings);
    assert(finding_texts(findings@) =~= containers_found(path@, all, functions_of(all)));
    check_unbounded_caches(path, lines, &mut findings);
    check_unclosed_files(path, lines, funcs.as_slice(), &mut findings);
    check_threads_without_join(path, lines, funcs.as_slice(), &mut findings);
    check_listener_registration_without_removal(path, lines, funcs.as_slice(), &mut findings);
    check_del_with_cycles(path, lines, classes.as_slice(), &mut findings);
    sort_by_line(findings)
}

/// `analyze_file`, where its patterns compile.
pub fn try_analyze_file(path: &FilePath, content: &str) -> (r: Option<Vec<Finding>>)
    ensures
        r is Some <==> analysis_patterns_compile(lines_of(content@)),
        r matches Some(findings) ==> finding_texts(findings@) == findings_of(path@, content@),
{
    let owned = split_lines(content);
    let slices = as_slices(&owned);
    let lines = slices.as_slice();
    if accepts(DEF_PATTERN) && accepts(CLASS_PATTERN) && accepts(FINALIZER_PATTERN)
        && find_containers(lines).is_some() && find_caches(lines).is_some() && find_opened(
        lines,
    ).is_some() && find_threads(lines).is_some() && find_registries(lines).is_some() {
        Some(analyze_file(path, content))
    } else {
        None
    }
}

// ---- what holds of all findings ------------------------------------------------------------

/// Whether a finding names the file and a line of it.
pub open spec fn stands_in(f: FindingText, file: PathText, n: int) -> bool {
    f.file == file && 1 <= f.line <= n
}

/// Whether all findings name the file and a line of it.
pub open spec fn all_stand_in(s: Seq<FindingText>, file: PathText, n: int) -> bool {
    forall|k: int| 0 <= k < s.len() ==> stands_in(#[trigger] s[k], file, n)
}

proof fn lemma_container_lines(
    file: PathText,
    spans: Seq<Span>,
    containers: Seq<ContainerText>,
    n: int,
    count: int,
)
    requires
        0 <= n <= containers.len(),
        forall|k: int| 0 <= k < containers.len() ==> 0 <= (#[trigger] containers[k]).line < count,
    ensures
        all_stand_in(all_container_findings(file, spans, containers, n), file, count),
    decreases n,
{
    if n > 0 {
        lemma_container_lines(file, spans, containers, n - 1, count);
        let c = containers[n - 1];
        assert(all_stand_in(container_findings(file, spans, c), file, count));
    }
}

proof fn lemma_cache_lines(
    file: PathText,
    marks: Seq<Option<CacheMark>>,
    lines: Seq<Seq<char>>,
    n: int,
)
    requires
        0 <= n <= lines.len(),
    ensures
        all_stand_in(cache_findings(file, marks, lines, n), file, lines.len() as int),
    decreases n,
{
    if n > 0 {
        lemma_cache_lines(file, marks, lines, n - 1);
    }
}

proof fn lemma_opened_lines(
    file: PathText,
    spans: Seq<Span>,
    opened: Seq<OpenedText>,
    n: int,
    count: int,
)
    requires
        0 <= n <= opened.len(),
        forall|k: int| 0 <= k < opened.len() ==> 0 <= (#[trigger] opened[k]).line < count,
    ensures
        all_stand_in(opened_findings(file, spans, opened, n), file, count),
    decreases n,
{
    if n > 0 {
        lemma_opened_lines(file, spans, opened, n - 1, count);
        assert(0 <= opened[n - 1].line < count);
    }
}

proof fn lemma_thread_lines(
    file: PathText,
    spans: Seq<Span>,
    threads: Seq<ThreadText>,
    n: int,
    count: int,
)
    requires
        0 <= n <= threads.len(),
        forall|k: int| 0 <= k < threads.len() ==> 0 <= (#[trigger] threads[k]).line < count,
    ensures
        all_stand_in(thread_findings(file, spans, threads, n), file, count),
    decreases n,
{
    if n > 0 {
        lemma_thread_lines(file, spans, threads, n - 1, count);
        assert(0 <= threads[n - 1].line < count);
    }
}

proof fn lemma_registration_lines(
    file: PathText,
    spans: Seq<Span>,
    r: RegistryText,
    n: int,
    count: int,
)
    requires
        0 <= n <= count,
    ensures
        all_stand_in(registrations(file, spans, r, n), file, count),
    decreases n,
{
    if n > 0 {
        lemma_registration_lines(file, spans, r, n - 1, count);
    }
}

proof fn lemma_registry_lines(
    file: PathText,
    spans: Seq<Span>,
    registries: Seq<RegistryText>,
    n: int,
    count: int,
)
    requires
        0 <= n <= registries.len(),
        forall|k: int|
            0 <= k < registries.len() ==> (#[trigger] registries[k]).appends.len() == count,
    ensures
        all_stand_in(registry_findings(file, spans, registries, n), file, count),
    decreases n,
{
    if n > 0 {
        lemma_registry_lines(file, spans, registries, n - 1, count);
        let r = registries[n - 1];
        lemma_registration_lines(file, spans, r, r.appends.len() as int, count);
    }
}

proof fn lemma_finalizer_lines(
    file: PathText,
    marks: Seq<bool>,
    classes: Seq<Span>,
    n: int,
    count: int,
)
    requires
        0 <= n <= count,
    ensures
        all_stand_in(finalizer_findings(file, marks, classes, n), file, count),
    decreases n,
{
    if n > 0 {
        lemma_finalizer_lines(file, marks, classes, n - 1, count);
    }
}

/// Everything found in a file names that file and one of its lines, counted from one, and
/// the findings come in the order of the lines.
pub proof fn law_findings_of(file: PathText, content: Seq<char>)
    ensures
        all_stand_in(findings_of(file, content), file, lines_of(content).len() as int),
        forall|i: int, j: int|
            0 <= i < j < findings_of(file, content).len() ==> (#[trigger] findings_of(
                file,
                content,
            )[i]).line <= (#[trigger] findings_of(file, content)[j]).line,
{
    let lines = lines_of(content);
    let n = lines.len() as int;
    let funcs = functions_of(lines);
    let classes = classes_of(lines);
    lemma_containers_in(lines, n);
    lemma_opened_in(lines, n);
    lemma_threads_in(lines, n);
    lemma_container_lines(
        file,
        funcs,
        containers_in(lines, n),
        containers_in(lines, n).len() as int,
        n,
    );
    lemma_cache_lines(file, caches_in(lines), lines, n);
    lemma_opened_lines(file, funcs, opened_in(lines, n), opened_in(lines, n).len() as int, n);
    lemma_thread_lines(file, funcs, threads_in(lines, n), threads_in(lines, n).len() as int, n);
    lemma_registry_lines(file, funcs, registries_in(lines), registries_in(lines).len() as int, n);
    lemma_finalizer_lines(file, matching(FINALIZER_PATTERN@, lines), classes, n, n);
    let found = checks_found(file, lines);
    let s1 = containers_found(file, lines, funcs);
    let s2 = s1 + caches_found(file, lines);
    let s3 = s2 + opened_found(file, lines, funcs);
    let s4 = s3 + threads_found(file, lines, funcs);
    let s5 = s4 + registries_found(file, lines, funcs);
    assert(all_stand_in(s2, file, n));
    assert(all_stand_in(s3, file, n));
    assert(all_stand_in(s4, file, n));
    assert(all_stand_in(s5, file, n));
    assert(found == s5 + finalizers_found(file, lines, classes));
    assert(all_stand_in(found, file, n));
    law_by_line(found);
    let sorted = by_line(found);
    found.to_multiset_ensures();
    sorted.to_multiset_ensures();
    assert forall|k: int| 0 <= k < sorted.len() implies stands_in(
        #[trigger] sorted[k],
        file,
        n,
    ) by {
        assert(sorted.contains(sorted[k]));
        assert(sorted.to_multiset().count(sorted[k]) > 0);
        assert(found.contains(sorted[k]));
    }
}

proof fn lemma_sites(marks: Seq<bool>, line: int, n: int)
    requires
        0 <= n <= marks.len(),
    ensures
        forall|k: int|
            0 <= k < sites(marks, line, n).len() ==> {
                let at = #[trigger] sites(marks, line, n)[k];
                0 <= at < n && at != line && marks[at]
            },
        forall|at: int|
            0 <= at < n && at != line && #[trigger] marks[at] ==> sites(marks, line, n).contains(
                at,
            ),
    decreases n,
{
    if n > 0 {
        lemma_sites(marks, line, n - 1);
        let fewer = sites(marks, line, n - 1);
        let all = sites(marks, line, n);
        assert(forall|k: int| 0 <= k < fewer.len() ==> fewer[k] == #[trigger] all[k]);
        assert forall|at: int|
            0 <= at < n && at != line && #[trigger] marks[at] implies all.contains(at) by {
            if at < n - 1 {
                let k = choose|k: int| 0 <= k < fewer.len() && fewer[k] == at;
                assert(all[k] == at);
            } else {
                assert(all[fewer.len() as int] == at);
            }
        }
    }
}

/// A container is reported exactly where another line grows it and no other line shrinks it
/// or makes it anew. Each function that grows it is named once.
pub proof fn law_container_findings(file: PathText, spans: Seq<Span>, c: ContainerText)
    ensures
        container_findings(file, spans, c).len() > 0 <==> {
            &&& exists|j: int| 0 <= j < c.grows.len() && j != c.line && #[trigger] c.grows[j]
            &&& forall|j: int| 0 <= j < c.shrinks.len() && j != c.line ==> !#[trigger] c.shrinks[j]
        },
        forall|a: int, b: int|
            0 <= a < b < container_findings(file, spans, c).len() ==> (
            #[trigger] container_findings(file, spans, c)[a]).function != (
            #[trigger] container_findings(file, spans, c)[b]).function,
        container_findings(file, spans, c).len() > 0 ==> forall|j: int|
            0 <= j < c.grows.len() && j != c.line && #[trigger] c.grows[j] ==> exists|k: int|
                0 <= k < container_findings(file, spans, c).len() && (
                #[trigger] container_findings(file, spans, c)[k]).function == enclosing(spans, j),
{
    let grown = sites(c.grows, c.line, c.grows.len() as int);
    let shrunk = sites(c.shrinks, c.line, c.shrinks.len() as int);
    lemma_sites(c.grows, c.line, c.grows.len() as int);
    lemma_sites(c.shrinks, c.line, c.shrinks.len() as int);
    let around = functions_around(spans, grown);
    law_tally(around);
    let found = container_findings(file, spans, c);
    if shrunk.len() > 0 {
        let j = shrunk[0];
        assert(c.shrinks[j] && j != c.line);
        assert(found.len() == 0);
    } else {
        assert forall|j: int|
            0 <= j < c.shrinks.len() && j != c.line implies !#[trigger] c.shrinks[j] by {
            if c.shrinks[j] {
                assert(shrunk.contains(j));
            }
        }
        if grown.len() > 0 {
            assert(c.grows[grown[0]]);
            assert(around[0] == enclosing(spans, grown[0]));
            assert(around.contains(around[0]));
            let k = choose|k: int|
                0 <= k < tallied(around).len() && (#[trigger] tallied(around)[k]).0 == around[0];
            assert(found.len() > 0);
        }
        if found.len() > 0 {
            assert(tallied(around).len() > 0);
            assert(grown.len() > 0);
        }
        assert forall|j: int|
            0 <= j < c.grows.len() && j != c.line && #[trigger] c.grows[j] implies exists|k: int|
            0 <= k < found.len() && (#[trigger] found[k]).function == enclosing(spans, j) by {
            assert(grown.contains(j));
            let m = choose|m: int| 0 <= m < grown.len() && grown[m] == j;
            assert(around[m] == enclosing(spans, j));
            assert(around.contains(around[m]));
            let k = choose|k: int|
                0 <= k < tallied(around).len() && (#[trigger] tallied(around)[k]).0 == around[m];
            assert(found[k].function == enclosing(spans, j));
        }
        assert forall|j: int|
            0 <= j < c.grows.len() && j != c.line && #[trigger] c.grows[j] implies grown.len()
            > 0 by {
            assert(grown.contains(j));
        }
    }
}

/// An opened file is reported exactly where no line of its scope closes it.
pub proof fn law_opened_findings(
    file: PathText,
    spans: Seq<Span>,
    opened: Seq<OpenedText>,
    k: int,
)
    requires
        0 <= k < opened.len(),
        forall|i: int, j: int|
            0 <= i < j < opened.len() ==> (#[trigger] opened[i]).line < (#[trigger] opened[j]).line,
    ensures
        opened_findings(file, spans, opened, opened.len() as int).contains(
            opened_finding(file, spans, opened[k]),
        ) <==> !marked_in_scope(spans, opened[k].line, opened[k].closes),
{
    lemma_opened_reported(file, spans, opened, opened.len() as int, k);
}

proof fn lemma_opened_reported(
    file: PathText,
    spans: Seq<Span>,
    opened: Seq<OpenedText>,
    n: int,
    k: int,
)
    requires
        0 <= k < opened.len(),
        0 <= n <= opened.len(),
        forall|i: int, j: int|
            0 <= i < j < opened.len() ==> (#[trigger] opened[i]).line < (#[trigger] opened[j]).line,
    ensures
        opened_findings(file, spans, opened, n).contains(opened_finding(file, spans, opened[k]))
            <==> k < n && !marked_in_scope(spans, opened[k].line, opened[k].closes),
    decreases n,
{
    if n > 0 {
        lemma_opened_reported(file, spans, opened, n - 1, k);
        let fewer = opened_findings(file, spans, opened, n - 1);
        let all = opened_findings(file, spans, opened, n);
        let f = opened_finding(file, spans, opened[k]);
        if fewer.contains(f) {
            let i = choose|i: int| 0 <= i < fewer.len() && fewer[i] == f;
            assert(all[i] == f);
        }
        if k == n - 1 && all.len() > fewer.len() {
            assert(all[fewer.len() as int] == f);
        }
        if all.contains(f) {
            let i = choose|i: int| 0 <= i < all.len() && all[i] == f;
            if i < fewer.len() {
                assert(fewer[i] == f);
            } else {
                assert(f.line == opened[n - 1].line + 1);
                assert(opened[k].line == opened[n - 1].line);
                assert(k == n - 1);
            }
        }
    }
}

/// A thread is reported exactly where no line of its scope joins it.
pub proof fn law_thread_findings(
    file: PathText,
    spans: Seq<Span>,
    threads: Seq<ThreadText>,
    k: int,
)
    requires
        0 <= k < threads.len(),
        forall|i: int, j: int|
            0 <= i < j < threads.len() ==> (#[trigger] threads[i]).line < (
            #[trigger] threads[j]).line,
    ensures
        thread_findings(file, spans, threads, threads.len() as int).contains(
            thread_finding(file, spans, threads[k]),
        ) <==> !marked_in_scope(spans, threads[k].line, threads[k].joins),
{
    lemma_thread_reported(file, spans, threads, threads.len() as int, k);
}

proof fn lemma_thread_reported(
    file: PathText,
    spans: Seq<Span>,
    threads: Seq<ThreadText>,
    n: int,
    k: int,
)
    requires
        0 <= k < threads.len(),
        0 <= n <= threads.len(),
        forall|i: int, j: int|
            0 <= i < j < threads.len() ==> (#[trigger] threads[i]).line < (
            #[trigger] threads[j]).line,
    ensures
        thread_findings(file, spans, threads, n).contains(thread_finding(file, spans, threads[k]))
            <==> k < n && !marked_in_scope(spans, threads[k].line, threads[k].joins),
    decreases n,
{
    if n > 0 {
        lemma_thread_reported(file, spans, threads, n - 1, k);
        let fewer = thread_findings(file, spans, threads, n - 1);
        let all = thread_findings(file, spans, threads, n);
        let f = thread_finding(file, spans, threads[k]);
        if fewer.contains(f) {
            let i = choose|i: int| 0 <= i < fewer.len() && fewer[i] == f;
            assert(all[i] == f);
        }
        if k == n - 1 && all.len() > fewer.len() {
            assert(all[fewer.len() as int] == f);
        }
        if all.contains(f) {
            let i = choose|i: int| 0 <= i < all.len() && all[i] == f;
            if i < fewer.len() {
                assert(fewer[i] == f);
            } else {
                assert(f.line == threads[n - 1].line + 1);
                assert(threads[k].line == threads[n - 1].line);
                assert(k == n - 1);
            }
        }
    }
}

/// A registry that anything is removed from is not reported, and one that nothing is removed
/// from is reported at every line that appends to it.
pub proof fn law_registry_findings(file: PathText, spans: Seq<Span>, r: RegistryText, i: int)
    requires
        0 <= i < r.appends.len(),
    ensures
        r.removes.contains(true) ==> registry_findings(file, spans, seq![r], 1).len() == 0,
        !r.removes.contains(true) ==> (registry_findings(file, spans, seq![r], 1).contains(
            registry_finding(file, spans, r.name, i),
        ) <==> r.appends[i]),
{
    reveal_with_fuel(registry_findings, 2);
    let n = r.appends.len() as int;
    lemma_registration_reported(file, spans, r, n, i);
    assert(registry_findings(file, spans, seq![r], 0) + registrations(file, spans, r, n)
        =~= registrations(file, spans, r, n));
}

proof fn lemma_registration_reported(
    file: PathText,
    spans: Seq<Span>,
    r: RegistryText,
    n: int,
    i: int,
)
    requires
        0 <= i < r.appends.len(),
        0 <= n <= r.appends.len(),
    ensures
        registrations(file, spans, r, n).contains(registry_finding(file, spans, r.name, i)) <==> i
            < n && r.appends[i],
    decreases n,
{
    if n > 0 {
        lemma_registration_reported(file, spans, r, n - 1, i);
        let fewer = registrations(file, spans, r, n - 1);
        let all = registrations(file, spans, r, n);
        let f = registry_finding(file, spans, r.name, i);
        if fewer.contains(f) {
            let k = choose|k: int| 0 <= k < fewer.len() && fewer[k] == f;
            assert(all[k] == f);
        }
        if i == n - 1 && all.len() > fewer.len() {
            assert(all[fewer.len() as int] == f);
        }
        if all.contains(f) {
            let k = choose|k: int| 0 <= k < all.len() && all[k] == f;
            if k < fewer.len() {
                assert(fewer[k] == f);
            }
        }
    }
}

proof fn lemma_cache_reported(
    file: PathText,
    marks: Seq<Option<CacheMark>>,
    lines: Seq<Seq<char>>,
    n: int,
    i: int,
)
    requires
        marks.len() == lines.len(),
        0 <= n <= lines.len(),
        0 <= i < lines.len(),
    ensures
        (exists|k: int|
            0 <= k < cache_findings(file, marks, lines, n).len() && (#[trigger] cache_findings(
                file,
                marks,
                lines,
                n,
            )[k]).line == i + 1) <==> i < n && marks[i] is Some,
        i < n && marks[i] is Some ==> cache_findings(file, marks, lines, n).contains(
            cache_finding(file, lines, i, marks[i]->0),
        ),
    decreases n,
{
    if n > 0 {
        lemma_cache_reported(file, marks, lines, n - 1, i);
        let fewer = cache_findings(file, marks, lines, n - 1);
        let all = cache_findings(file, marks, lines, n);
        assert(forall|k: int| 0 <= k < fewer.len() ==> fewer[k] == #[trigger] all[k]);
        if i < n - 1 && marks[i] is Some {
            let f = cache_finding(file, lines, i, marks[i]->0);
            let k = choose|k: int| 0 <= k < fewer.len() && fewer[k] == f;
            assert(all[k] == f);
        }
        if i == n - 1 && marks[i] is Some {
            assert(all[fewer.len() as int].line == i + 1);
        }
    }
}

/// A line is reported as a cache without a limit exactly where its decorator is one, and the
/// finding names the function that it decorates.
pub proof fn law_cache_findings(
    file: PathText,
    marks: Seq<Option<CacheMark>>,
    lines: Seq<Seq<char>>,
    i: int,
)
    requires
        marks.len() == lines.len(),
        0 <= i < lines.len(),
    ensures
        (exists|k: int|
            0 <= k < cache_findings(file, marks, lines, lines.len() as int).len() && (
            #[trigger] cache_findings(file, marks, lines, lines.len() as int)[k]).line == i + 1)
            <==> marks[i] is Some,
        marks[i] is Some ==> cache_findings(file, marks, lines, lines.len() as int).contains(
            cache_finding(file, lines, i, marks[i]->0),
        ),
{
    lemma_cache_reported(file, marks, lines, lines.len() as int, i);
}

/// A finalizer is reported exactly where a line defines one.
pub proof fn law_finalizer_findings(
    file: PathText,
    marks: Seq<bool>,
    classes: Seq<Span>,
    i: int,
)
    requires
        0 <= i < marks.len(),
    ensures
        finalizer_findings(file, marks, classes, marks.len() as int).contains(
            finalizer_finding(file, classes, i),
        ) <==> marks[i],
{
    lemma_finalizer_reported(file, marks, classes, marks.len() as int, i);
}

proof fn lemma_finalizer_reported(
    file: PathText,
    marks: Seq<bool>,
    classes: Seq<Span>,
    n: int,
    i: int,
)
    requires
        0 <= i < marks.len(),
        0 <= n <= marks.len(),
    ensures
        finalizer_findings(file, marks, classes, n).contains(finalizer_finding(file, classes, i))
            <==> i < n && marks[i],
    decreases n,
{
    if n > 0 {
        lemma_finalizer_reported(file, marks, classes, n - 1, i);
        let fewer = finalizer_findings(file, marks, classes, n - 1);
        let all = finalizer_findings(file, marks, classes, n);
        let f = finalizer_finding(file, classes, i);
        if fewer.contains(f) {
            let k = choose|k: int| 0 <= k < fewer.len() && fewer[k] == f;
            assert(all[k] == f);
        }
        if i == n - 1 && all.len() > fewer.len() {
            assert(all[fewer.len() as int] == f);
        }
        if all.contains(f) {
            let k = choose|k: int| 0 <= k < all.len() && all[k] == f;
            if k < fewer.len() {
                assert(fewer[k] == f);
            }
        }
    }
}

/// The analysis of a file reports what the six checks find, each finding as often as it was
/// found, and nothing else.
pub proof fn law_all_checks_are_reported(file: PathText, content: Seq<char>, f: FindingText)
    ensures
        findings_of(file, content).len() == checks_found(file, lines_of(content)).len(),
        findings_of(file, content).to_multiset() == checks_found(
            file,
            lines_of(content),
        ).to_multiset(),
        findings_of(file, content).contains(f) <==> {
            let lines = lines_of(content);
            ||| containers_found(file, lines, functions_of(lines)).contains(f)
            ||| caches_found(file, lines).contains(f)
            ||| opened_found(file, lines, functions_of(lines)).contains(f)
            ||| threads_found(file, lines, functions_of(lines)).contains(f)
            ||| registries_found(file, lines, functions_of(lines)).contains(f)
            ||| finalizers_found(file, lines, classes_of(lines)).contains(f)
        },
{
    let lines = lines_of(content);
    let funcs = functions_of(lines);
    let found = checks_found(file, lines);
    let sorted = by_line(found);
    law_by_line(found);
    found.to_multiset_ensures();
    sorted.to_multiset_ensures();
    assert(sorted.contains(f) <==> sorted.to_multiset().count(f) > 0);
    assert(found.contains(f) <==> found.to_multiset().count(f) > 0);
    let s1 = containers_found(file, lines, funcs);
    let s2 = s1 + caches_found(file, lines);
    let s3 = s2 + opened_found(file, lines, funcs);
    let s4 = s3 + threads_found(file, lines, funcs);
    let s5 = s4 + registries_found(file, lines, funcs);
    lemma_in_both(s1, caches_found(file, lines), f);
    lemma_in_both(s2, opened_found(file, lines, funcs), f);
    lemma_in_both(s3, threads_found(file, lines, funcs), f);
    lemma_in_both(s4, registries_found(file, lines, funcs), f);
    lemma_in_both(s5, finalizers_found(file, lines, classes_of(lines)), f);
}

proof fn lemma_in_both(a: Seq<FindingText>, b: Seq<FindingText>, f: FindingText)
    ensures
        (a + b).contains(f) <==> a.contains(f) || b.contains(f),
{
    if a.contains(f) {
        let k = choose|k: int| 0 <= k < a.len() && a[k] == f;
        assert((a + b)[k] == f);
    }
    if b.contains(f) {
        let k = choose|k: int| 0 <= k < b.len() && b[k] == f;
        assert((a + b)[a.len() + k] == f);
    }
    if (a + b).contains(f) {
        let k = choose|k: int| 0 <= k < (a + b).len() && (a + b)[k] == f;
        if k < a.len() {
            assert(a[k] == f);
        } else {
            assert(b[k - a.len()] == f);
        }
    }
}

// ---- what each check reports, line by line -------------------------------------------------

/// How many of the first `n` positions are marked.
pub open spec fn marked_before(marks: Seq<bool>, n: int) -> nat
    decreases n,
{
    if n <= 0 {
        0
    } else {
        marked_before(marks, n - 1) + if marks[n - 1] {
            1nat
        } else {
            0nat
        }
    }
}

proof fn lemma_marked_before(marks: Seq<bool>, a: int, b: int)
    requires
        0 <= a <= b,
    ensures
        marked_before(marks, a) <= marked_before(marks, b),
        a < b && marks[a] ==> marked_before(marks, a) < marked_before(marks, b),
    decreases b - a,
{
    if a < b {
        lemma_marked_before(marks, a, b - 1);
    }
}

/// Whether a line belongs to the same function as another, or to the file where that one is in
/// no function.
pub open spec fn in_scope(spans: Seq<Span>, line: int, j: int) -> bool {
    match innermost(spans, line) {
        Some(i) => spans[i].start <= j && j < spans[i].end,
        None => true,
    }
}

/// A mark counts for a line where it stands in the function that the line is in, or anywhere in
/// the file where the line is in none.
pub proof fn law_marked_in_scope(spans: Seq<Span>, line: int, marks: Seq<bool>)
    requires
        forall|i: int|
            0 <= i < spans.len() ==> 0 <= (#[trigger] spans[i]).start && spans[i].end
                <= marks.len(),
    ensures
        marked_in_scope(spans, line, marks) <==> exists|j: int|
            0 <= j < marks.len() && in_scope(spans, line, j) && #[trigger] marks[j],
{
    law_innermost(spans, line);
    let range = scope_of(spans, line, marks.len() as int);
    if marked_in_scope(spans, line, marks) {
        let j = choose|j: int| range.0 <= j < range.1 && #[trigger] marks[j];
        assert(0 <= j < marks.len() && in_scope(spans, line, j) && marks[j]);
    }
    if exists|j: int| 0 <= j < marks.len() && in_scope(spans, line, j) && #[trigger] marks[j] {
        let j = choose|j: int|
            0 <= j < marks.len() && in_scope(spans, line, j) && #[trigger] marks[j];
        assert(range.0 <= j < range.1 && marks[j]);
    }
}

/// Whether a finding says this much.
pub open spec fn says(
    f: FindingText,
    file: PathText,
    function: Option<Seq<char>>,
    line: int,
    severity: Severity,
    category: Seq<char>,
) -> bool {
    &&& f.file == file
    &&& f.function == function
    &&& f.line == line
    &&& f.severity == severity
    &&& f.category == category
}

/// The opened files that nothing in their scope closes are reported, each once and in order, as
/// of medium severity, at the line that opens them and in the function around it.
pub proof fn law_every_opened_file(
    file: PathText,
    spans: Seq<Span>,
    opened: Seq<OpenedText>,
    n: int,
    k: int,
)
    requires
        0 <= k < n <= opened.len(),
    ensures
        ({
            let left = Seq::new(
                opened.len(),
                |i: int| !marked_in_scope(spans, opened[i].line, opened[i].closes),
            );
            let found = opened_findings(file, spans, opened, n);
            &&& found.len() == marked_before(left, n)
            &&& left[k] ==> {
                let f = found[marked_before(left, k) as int];
                &&& says(
                    f,
                    file,
                    enclosing(spans, opened[k].line),
                    opened[k].line + 1,
                    Severity::Medium,
                    "unclosed-file-handle"@,
                )
                &&& f.message == opened_message(opened[k].name)
            }
        }),
    decreases n,
{
    let left = Seq::new(
        opened.len(),
        |i: int| !marked_in_scope(spans, opened[i].line, opened[i].closes),
    );
    lemma_marked_before(left, k, n - 1);
    if n > 1 {
        let m = if k < n - 1 {
            k
        } else {
            n - 2
        };
        law_every_opened_file(file, spans, opened, n - 1, m);
    }
}

/// The threads that nothing in their scope joins are reported, each once and in order, as of low
/// severity, at the line that makes them and in the function around it.
pub proof fn law_every_thread(
    file: PathText,
    spans: Seq<Span>,
    threads: Seq<ThreadText>,
    n: int,
    k: int,
)
    requires
        0 <= k < n <= threads.len(),
    ensures
        ({
            let left = Seq::new(
                threads.len(),
                |i: int| !marked_in_scope(spans, threads[i].line, threads[i].joins),
            );
            let found = thread_findings(file, spans, threads, n);
            &&& found.len() == marked_before(left, n)
            &&& left[k] ==> {
                let f = found[marked_before(left, k) as int];
                &&& says(
                    f,
                    file,
                    enclosing(spans, threads[k].line),
                    threads[k].line + 1,
                    Severity::Low,
                    "dangling-thread"@,
                )
                &&& f.message == thread_message(threads[k].kind, threads[k].name)
            }
        }),
    decreases n,
{
    let left = Seq::new(
        threads.len(),
        |i: int| !marked_in_scope(spans, threads[i].line, threads[i].joins),
    );
    lemma_marked_before(left, k, n - 1);
    if n > 1 {
        let m = if k < n - 1 {
            k
        } else {
            n - 2
        };
        law_every_thread(file, spans, threads, n - 1, m);
    }
}

/// The unlimited caches are reported, each once and in order, as of medium severity, at the line
/// of the decorator and with the function below it.
pub proof fn law_every_cache(
    file: PathText,
    marks: Seq<Option<CacheMark>>,
    lines: Seq<Seq<char>>,
    n: int,
    k: int,
)
    requires
        0 <= k < n <= marks.len(),
    ensures
        ({
            let left = Seq::new(marks.len(), |i: int| marks[i] is Some);
            let found = cache_findings(file, marks, lines, n);
            &&& found.len() == marked_before(left, n)
            &&& left[k] ==> {
                let f = found[marked_before(left, k) as int];
                &&& says(
                    f,
                    file,
                    decorated_function(lines, (marks[k]->0).below as int),
                    k + 1,
                    Severity::Medium,
                    "unbounded-cache"@,
                )
                &&& f.message == cache_message((marks[k]->0).kind)
            }
        }),
    decreases n,
{
    let left = Seq::new(marks.len(), |i: int| marks[i] is Some);
    lemma_marked_before(left, k, n - 1);
    if n > 1 {
        let m = if k < n - 1 {
            k
        } else {
            n - 2
        };
        law_every_cache(file, marks, lines, n - 1, m);
    }
}

/// The finalizers are reported, each once and in order, as of low severity, at the line that
/// defines them, under the name of the class around it.
pub proof fn law_every_finalizer(
    file: PathText,
    marks: Seq<bool>,
    classes: Seq<Span>,
    n: int,
    k: int,
)
    requires
        0 <= k < n <= marks.len(),
    ensures
        ({
            let found = finalizer_findings(file, marks, classes, n);
            &&& found.len() == marked_before(marks, n)
            &&& marks[k] ==> {
                let f = found[marked_before(marks, k) as int];
                &&& f.file == file
                &&& f.line == k + 1
                &&& f.severity == Severity::Low
                &&& f.category == "del-with-possible-cycle"@
                &&& enclosing(classes, k) is None ==> f.function is None
                &&& enclosing(classes, k) matches Some(name) ==> f.function == Some(
                    name + seq!['.', '_', '_', 'd', 'e', 'l', '_', '_'],
                )
            }
        }),
    decreases n,
{
    reveal_strlit(".__del__");
    assert(".__del__"@ =~= seq!['.', '_', '_', 'd', 'e', 'l', '_', '_']);
    lemma_marked_before(marks, k, n - 1);
    if n > 1 {
        let m = if k < n - 1 {
            k
        } else {
            n - 2
        };
        law_every_finalizer(file, marks, classes, n - 1, m);
    }
}

/// The registrations of a registry are reported, each once and in order, as of medium severity,
/// at the line that appends and in the function around it.
pub proof fn law_every_registration(
    file: PathText,
    spans: Seq<Span>,
    r: RegistryText,
    n: int,
    k: int,
)
    requires
        0 <= k < n <= r.appends.len(),
    ensures
        ({
            let found = registrations(file, spans, r, n);
            &&& found.len() == marked_before(r.appends, n)
            &&& r.appends[k] ==> {
                let f = found[marked_before(r.appends, k) as int];
                &&& says(
                    f,
                    file,
                    enclosing(spans, k),
                    k + 1,
                    Severity::Medium,
                    "unremoved-listener"@,
                )
                &&& f.message == registry_message(r.name)
            }
        }),
    decreases n,
{
    lemma_marked_before(r.appends, k, n - 1);
    if n > 1 {
        let m = if k < n - 1 {
            k
        } else {
            n - 2
        };
        law_every_registration(file, spans, r, n - 1, m);
    }
}

/// The findings on registries are those on each, one registry after the other: all its
/// registrations where no line removes from it, and nothing where one does.
pub proof fn law_every_registry(
    file: PathText,
    spans: Seq<Span>,
    registries: Seq<RegistryText>,
    n: int,
)
    requires
        0 <= n < registries.len(),
    ensures
        registry_findings(file, spans, registries, 0).len() == 0,
        (exists|j: int|
            0 <= j < registries[n].removes.len() && #[trigger] registries[n].removes[j])
            ==> registry_findings(file, spans, registries, n + 1) == registry_findings(
            file,
            spans,
            registries,
            n,
        ),
        (forall|j: int|
            0 <= j < registries[n].removes.len() ==> !#[trigger] registries[n].removes[j])
            ==> registry_findings(file, spans, registries, n + 1) == registry_findings(
            file,
            spans,
            registries,
            n,
        ) + registrations(
            file,
            spans,
            registries[n],
            registries[n].appends.len() as int,
        ),
{
    let removes = registries[n].removes;
    if exists|j: int| 0 <= j < removes.len() && #[trigger] removes[j] {
        let j = choose|j: int| 0 <= j < removes.len() && #[trigger] removes[j];
        assert(removes[j] == true);
        assert(removes.contains(true));
    }
    if removes.contains(true) {
        let j = choose|j: int| 0 <= j < removes.len() && removes[j] == true;
        assert(removes[j]);
    }
}

/// At how many of the first `n` lines, other than the one that makes it, a container grows in
/// the given function.
pub open spec fn grown_in(
    spans: Seq<Span>,
    c: ContainerText,
    function: Option<Seq<char>>,
    n: int,
) -> nat
    decreases n,
{
    if n <= 0 {
        0
    } else {
        grown_in(spans, c, function, n - 1) + if c.grows[n - 1] && n - 1 != c.line && enclosing(
            spans,
            n - 1,
        ) == function {
            1nat
        } else {
            0nat
        }
    }
}

proof fn lemma_grown_in(spans: Seq<Span>, c: ContainerText, function: Option<Seq<char>>, n: int)
    requires
        0 <= n <= c.grows.len(),
    ensures
        occurrences(functions_around(spans, sites(c.grows, c.line, n)), function) == grown_in(
            spans,
            c,
            function,
            n,
        ),
    decreases n,
{
    if n > 0 {
        lemma_grown_in(spans, c, function, n - 1);
        let fewer = functions_around(spans, sites(c.grows, c.line, n - 1));
        let all = functions_around(spans, sites(c.grows, c.line, n));
        if c.grows[n - 1] && n - 1 != c.line {
            assert(all.drop_last() =~= fewer);
            assert(all.last() == enclosing(spans, n - 1));
        }
    }
}

/// Each finding on a container is of high severity, stands at the line that makes the container,
/// and says at how many places the function that it names grows it.
pub proof fn law_container_finding(file: PathText, spans: Seq<Span>, c: ContainerText, k: int)
    requires
        0 <= k < container_findings(file, spans, c).len(),
    ensures
        ({
            let f = container_findings(file, spans, c)[k];
            let count = grown_in(spans, c, f.function, c.grows.len() as int);
            &&& says(
                f,
                file,
                f.function,
                c.line + 1,
                Severity::High,
                "unbounded-global-container"@,
            )
            &&& count > 0
            &&& f.message == container_message(c.name, count)
        }),
{
    let grown = sites(c.grows, c.line, c.grows.len() as int);
    let around = functions_around(spans, grown);
    law_tally(around);
    let f = container_findings(file, spans, c)[k];
    lemma_grown_in(spans, c, f.function, c.grows.len() as int);
    assert(tallied(around)[k].1 == occurrences(around, tallied(around)[k].0));
}

/// The findings on containers are those on each, one container after the other.
pub proof fn law_every_container(
    file: PathText,
    spans: Seq<Span>,
    containers: Seq<ContainerText>,
    more: Seq<ContainerText>,
)
    ensures
        all_container_findings(file, spans, seq![], 0).len() == 0,
        containers.len() == 1 ==> all_container_findings(file, spans, containers, 1)
            == container_findings(file, spans, containers[0]),
        all_container_findings(
            file,
            spans,
            containers + more,
            (containers + more).len() as int,
        ) == all_container_findings(file, spans, containers, containers.len() as int)
            + all_container_findings(file, spans, more, more.len() as int),
{
    if containers.len() == 1 {
        reveal_with_fuel(all_container_findings, 2);
        assert(all_container_findings(file, spans, containers, 1) =~= container_findings(
            file,
            spans,
            containers[0],
        ));
    }
    lemma_containers_first(file, spans, containers, more, containers.len() as int);
    lemma_containers_more(file, spans, containers, more, more.len() as int);
}

proof fn lemma_containers_first(
    file: PathText,
    spans: Seq<Span>,
    containers: Seq<ContainerText>,
    more: Seq<ContainerText>,
    n: int,
)
    requires
        0 <= n <= containers.len(),
    ensures
        all_container_findings(file, spans, containers + more, n) == all_container_findings(
            file,
            spans,
            containers,
            n,
        ),
    decreases n,
{
    if n > 0 {
        lemma_containers_first(file, spans, containers, more, n - 1);
        assert((containers + more)[n - 1] == containers[n - 1]);
    }
}

proof fn lemma_containers_more(
    file: PathText,
    spans: Seq<Span>,
    containers: Seq<ContainerText>,
    more: Seq<ContainerText>,
    n: int,
)
    requires
        0 <= n <= more.len(),
    ensures
        all_container_findings(file, spans, containers + more, containers.len() + n)
            == all_container_findings(file, spans, containers, containers.len() as int)
            + all_container_findings(file, spans, more, n),
    decreases n,
{
    let head = all_container_findings(file, spans, containers, containers.len() as int);
    lemma_containers_first(file, spans, containers, more, containers.len() as int);
    if n > 0 {
        lemma_containers_more(file, spans, containers, more, n - 1);
        assert((containers + more)[containers.len() + n - 1] == more[n - 1]);
        assert(all_container_findings(file, spans, containers + more, containers.len() + n) =~= head
            + all_container_findings(file, spans, more, n));
    } else {
        assert(head + all_container_findings(file, spans, more, 0) =~= head);
    }
}

/// Which lines are handed to which check: each check reads all the lines of the file, five of
/// them with its functions and one with its classes.
pub proof fn law_checks_read_all_lines(file: PathText, lines: Seq<Seq<char>>)
    ensures
        ({
            let n = lines.len() as int;
            let functions = blocks(headers_in(DEF_PATTERN@, lines), lines, n);
            let classes = blocks(headers_in(CLASS_PATTERN@, lines), lines, n);
            let c = containers_in(lines, n);
            let o = opened_in(lines, n);
            let t = threads_in(lines, n);
            let r = registries_in(lines);
            checks_found(file, lines) == all_container_findings(file, functions, c, c.len() as int)
                + cache_findings(file, caches_in(lines), lines, n) + opened_findings(
                file,
                functions,
                o,
                o.len() as int,
            ) + thread_findings(file, functions, t, t.len() as int) + registry_findings(
                file,
                functions,
                r,
                r.len() as int,
            ) + finalizer_findings(file, matching(FINALIZER_PATTERN@, lines), classes, n)
        }),
{
}

/// The messages name what they are about: the container with the number of places where it
/// grows, the cache by its decorator, the file, the thread with its class, and the registry.
pub proof fn law_messages(kind: Seq<char>, name: Seq<char>, count: nat)
    ensures
        occurs(container_message(name, count), "'"@ + name + "'"@),
        occurs(container_message(name, count), "("@ + decimal(count) + " site(s))"@),
        occurs(cache_message(CacheKind::Cache), "@cache has no maxsize"@),
        occurs(cache_message(CacheKind::LruCache), "@lru_cache has no maxsize"@),
        stands_at(opened_message(name), "'"@ + name + "'"@, 0),
        stands_at(thread_message(kind, name), kind + " '"@ + name + "'"@, 0),
        stands_at(registry_message(name), "'"@ + name + "'"@, 0),
{
    reveal_strlit("'");
    lemma_container_message(name, count);
    lemma_cache_messages();
    assert("' is assigned from open() outside a `with` block and never explicitly closed in this scope — prefer `with open(...) as "@.len()
        > 0 && "' is assigned from open() outside a `with` block and never explicitly closed in this scope — prefer `with open(...) as "@[0]
        == '\'') by {
        reveal_strlit(
            "' is assigned from open() outside a `with` block and never explicitly closed in this scope — prefer `with open(...) as ",
        );
    }
    assert(opened_message(name).subrange(0, 2 + name.len() as int) =~= "'"@ + name + "'"@);
    assert("' is created without daemon=True and never joined in this scope — if these accumulate across calls, the thread objects (and their frames) won't be collected"@.len()
        > 0 && "' is created without daemon=True and never joined in this scope — if these accumulate across calls, the thread objects (and their frames) won't be collected"@[0]
        == '\'') by {
        reveal_strlit(
            "' is created without daemon=True and never joined in this scope — if these accumulate across calls, the thread objects (and their frames) won't be collected",
        );
    }
    let start = kind + " '"@ + name + "'"@;
    assert(thread_message(kind, name).subrange(0, start.len() as int) =~= start);
    assert("' looks like a listener/callback registry — entries are appended here but nothing in this file ever removes from '"@.len()
        > 0 && "' looks like a listener/callback registry — entries are appended here but nothing in this file ever removes from '"@[0]
        == '\'') by {
        reveal_strlit(
            "' looks like a listener/callback registry — entries are appended here but nothing in this file ever removes from '",
        );
    }
    assert(registry_message(name).subrange(0, 2 + name.len() as int) =~= "'"@ + name + "'"@);
}

proof fn lemma_container_message(name: Seq<char>, count: nat)
    ensures
        occurs(container_message(name, count), "'"@ + name + "'"@),
        occurs(container_message(name, count), "("@ + decimal(count) + " site(s))"@),
{
    let number = decimal(count);
    let a = "module-level container '"@;
    let b = "' is grown ("@;
    let c =
        " site(s)) but never cleared, popped, or reassigned anywhere in this file — it will grow for the life of the process"@;
    let m = container_message(name, count);
    reveal_strlit("'");
    reveal_strlit("(");
    reveal_strlit(" site(s))");
    reveal_strlit("module-level container '");
    reveal_strlit("' is grown (");
    assert(c.len() >= 9 && c.take(9) =~= " site(s))"@) by {
        reveal_strlit(
            " site(s)) but never cleared, popped, or reassigned anywhere in this file — it will grow for the life of the process",
        );
    }
    let first = "'"@ + name + "'"@;
    let at = a.len() - 1;
    assert(m.subrange(at, at + first.len()) =~= first);
    assert(stands_at(m, first, at));
    let second = "("@ + number + " site(s))"@;
    let from = a.len() + name.len() + b.len() - 1;
    assert(c =~= c.take(9) + c.skip(9));
    assert(m.subrange(from, from + second.len()) =~= second);
    assert(stands_at(m, second, from));
}

proof fn lemma_cache_messages()
    ensures
        occurs(cache_message(CacheKind::Cache), "@cache has no maxsize"@),
        occurs(cache_message(CacheKind::LruCache), "@lru_cache has no maxsize"@),
{
    reveal_strlit("@cache has no maxsize");
    reveal_strlit("@lru_cache has no maxsize");
    reveal_strlit("@cache");
    reveal_strlit("@lru_cache");
    reveal_strlit(
        " has no maxsize, so cached results accumulate for every distinct argument forever; consider maxsize=N or a TTL-based cache",
    );
    let c = "@cache has no maxsize"@;
    let l = "@lru_cache has no maxsize"@;
    assert(cache_message(CacheKind::Cache).subrange(0, c.len() as int) =~= c);
    assert(stands_at(cache_message(CacheKind::Cache), c, 0));
    assert(cache_message(CacheKind::LruCache).subrange(0, l.len() as int) =~= l);
    assert(stands_at(cache_message(CacheKind::LruCache), l, 0));
}

/// The function that a decorator applies to stands on the first line from `j` on that is no
/// decorator: it is what follows `def` or `async def` there as far as the bracket, and there is
/// none where that line is neither.
pub proof fn law_decorated_function(lines: Seq<Seq<char>>, j: int, k: int)
    requires
        0 <= j <= k < lines.len(),
        forall|m: int|
            j <= m < k ==> begins(#[trigger] trimmed_start(lines[m]), '@'),
        !begins(trimmed_start(lines[k]), '@'),
    ensures
        ({
            let t = trimmed_start(lines[k]);
            &&& stands_at(t, seq!['d', 'e', 'f', ' '], 0) ==> decorated_function(lines, j) == Some(
                trimmed(before(t.skip(4), '(')),
            )
            &&& stands_at(
                t,
                seq!['a', 's', 'y', 'n', 'c', ' ', 'd', 'e', 'f', ' '],
                0,
            ) ==> decorated_function(lines, j) == Some(trimmed(before(t.skip(10), '(')))
            &&& !stands_at(t, seq!['d', 'e', 'f', ' '], 0) && !stands_at(
                t,
                seq!['a', 's', 'y', 'n', 'c', ' ', 'd', 'e', 'f', ' '],
                0,
            ) ==> decorated_function(lines, j) is None
        }),
    decreases k - j,
{
    reveal_strlit("def ");
    reveal_strlit("async def ");
    assert("def "@ =~= seq!['d', 'e', 'f', ' ']);
    assert("async def "@ =~= seq!['a', 's', 'y', 'n', 'c', ' ', 'd', 'e', 'f', ' ']);
    let t = trimmed_start(lines[j]);
    if stands_at(t, "def "@, 0) {
        assert(t.subrange(0, 4)[0] == t[0]);
        assert("def "@[0] == 'd');
    }
    if stands_at(t, "async def "@, 0) {
        assert(t.subrange(0, 10)[0] == t[0]);
        assert("async def "@[0] == 'a');
    }
    if j < k {
        assert(begins(t, '@'));
        assert(t[0] == '@');
        law_decorated_function(lines, j + 1, k);
    }
}

/// A decorator at the end of a file, or one that only decorators follow, applies to nothing.
pub proof fn law_nothing_decorated(lines: Seq<Seq<char>>, j: int)
    requires
        0 <= j <= lines.len(),
        forall|m: int|
            j <= m < lines.len() ==> begins(#[trigger] trimmed_start(lines[m]), '@'),
    ensures
        decorated_function(lines, j) is None,
    decreases lines.len() - j,
{
    if j < lines.len() {
        reveal_strlit("def ");
        reveal_strlit("async def ");
        let t = trimmed_start(lines[j]);
        assert(begins(t, '@'));
        if stands_at(t, "def "@, 0) {
            assert(t.subrange(0, 4)[0] == "def "@[0]);
        }
        if stands_at(t, "async def "@, 0) {
            assert(t.subrange(0, 10)[0] == "async def "@[0]);
        }
        law_nothing_decorated(lines, j + 1);
    }
}

} // verus!
