//! What the leak patterns find in the lines of a Python file, as plain values.

use crate::pyleak::call::{call_below, call_code, call_top, read_call};
use crate::pyleak::pattern::{
    accepts, capture_lines, captured, group, group_texts, match_lines, match_text, matching,
    regex_accepts, regex_groups, regex_matches,
};
use crate::pyleak::scanner::{CLASS_PATTERN, DEF_PATTERN};
use crate::pyleak::statement::{
    code_slices, codes, declares, find_rebindings, find_statements, owner, rebindings,
    statement_texts, statements_in, tops, Opens, Statement, StatementText,
};
use crate::text::{begins, begins_with, joined, str_texts, texts};
use vstd::prelude::*;

verus! {

// ---- fixed patterns ------------------------------------------------------------------------

/// A name bound to an empty list, dict or set: the name.
pub const CONTAINER_PATTERN: &'static str = r"^([A-Za-z_]\w*)\s*=\s*(\[\]|\{\}|set\(\))\s*$";

/// A name bound to what `open` returns: the name.
pub const OPEN_PATTERN: &'static str = r"(\w+)\s*=\s*open\s*\(";

/// A `with open(` line.
pub const WITH_OPEN_PATTERN: &'static str = r"^\s*with\s+open\s*\(";

/// An `lru_cache` decorator: its name, and what follows its opening bracket, if there is one.
pub const LRU_CACHE_PATTERN: &'static str =
    r"^\s*@((?:functools\.)?lru_cache)\s*(?:#.*|\((.*))?$";

/// A `cache` decorator.
pub const CACHE_PATTERN: &'static str = r"^\s*@(functools\.)?cache\s*(#.*)?$";

/// Arguments of which the first is given by its name, or that hold none.
pub const NAMED_PATTERN: &'static str = r"^\s*(?:[^\W\d]\w*\s*=(?:[^=]|$)|$)";

/// Arguments among which a `maxsize` is given by its name.
pub const MAXSIZE_PATTERN: &'static str = r"\bmaxsize\s*=(?:[^=]|$)";

/// A name bound to a new thread or timer: the name, an optional module, the class, and what
/// follows the opening bracket.
pub const THREAD_PATTERN: &'static str =
    r"(\w+)\s*=\s*(threading\.)?(Thread|Timer)\s*\((.*)";

/// A `daemon=True` argument.
pub const DAEMON_PATTERN: &'static str = r"daemon\s*=\s*True";

/// The definition of a finalizer.
pub const FINALIZER_PATTERN: &'static str = r"^\s*def\s+__del__\s*\(";

/// A name of the kind that registries of callbacks have.
pub const LISTENER_PATTERN: &'static str =
    r"(?i)(listener|callback|handler|subscriber|observer)";

/// A call of `append`: the name it is called on.
pub const APPEND_PATTERN: &'static str = r"(\w+)\s*\.\s*append\s*\(";

// ---- patterns made for a name --------------------------------------------------------------

/// A line that grows the named container.
pub open spec fn growth_pattern(name: Seq<char>) -> Seq<char> {
    r"\b"@ + name + r"\s*\.\s*(append|add|update|setdefault)\s*\(|\b"@ + name
        + r"\s*\[[^\]]*\]\s*=(?:[^=]|$)"@
}

/// A line that shrinks the named container, or binds the name to an empty one.
pub open spec fn shrink_pattern(name: Seq<char>) -> Seq<char> {
    r"\b"@ + name + r"\s*\.\s*(clear|pop|popitem|remove|discard)\s*\(|^\s*"@ + name
        + r"\s*=\s*(\[\]|\{\}|set\(\))\s*$"@
}

/// Code outside brackets that assigns to the name: alone or as one of several targets, at the
/// start of a line, behind a semicolon or behind the colon of a compound statement.
pub open spec fn binding_pattern(name: Seq<char>) -> Seq<char> {
    r"(?:^|;)\s*(?:(?:async\s+)?(?:if|elif|else|for|while|with|try|except|finally|case)\b.*:\s*)?(?:[\w.*()\[\]]+\s*[,=]\s*)*\*?"@
        + name + r"\s*(?:,[\w.*()\[\],\s]*)?(?::[^=]*)?=(?:[^=]|$)"@
}

/// Code that assigns to the name as one of several targets in brackets.
pub open spec fn group_binding_pattern(name: Seq<char>) -> Seq<char> {
    r"(?:^|;)\s*[\(\[]\s*(?:[\w.*]+\s*,\s*)*\*?"@ + name
        + r"\s*(?:,[\w.*,\s]*)?[\)\]]\s*=(?:[^=]|$)"@
}

/// Code outside brackets that declares the name global.
pub open spec fn global_pattern(name: Seq<char>) -> Seq<char> {
    r"(?:^|[;:])\s*global\s+(?:\w+\s*,\s*)*"@ + name + r"\b"@
}

/// A line that closes the named file.
pub open spec fn close_pattern(name: Seq<char>) -> Seq<char> {
    r"\b"@ + name + r"\s*\.\s*close\s*\("@
}

/// A line that joins the named thread.
pub open spec fn join_pattern(name: Seq<char>) -> Seq<char> {
    r"\b"@ + name + r"\s*\.\s*join\s*\("@
}

/// A line that appends to the named registry.
pub open spec fn registration_pattern(name: Seq<char>) -> Seq<char> {
    r"\b"@ + name + r"\s*\.\s*append\s*\("@
}

/// A line that removes from the named registry.
pub open spec fn removal_pattern(name: Seq<char>) -> Seq<char> {
    r"\b"@ + name + r"\s*\.\s*(remove|pop|discard|clear)\s*\("@
}

/// The text `\b`, the name, and the rest of a pattern.
fn named_pattern(name: &str, rest: &str) -> (r: String)
    ensures
        r@ == r"\b"@ + name@ + rest@,
{
    let mut r = String::from_str(r"\b");
    r.append(name);
    r.append(rest);
    r
}

fn make_growth_pattern(name: &str) -> (r: String)
    ensures
        r@ == growth_pattern(name@),
{
    let mut r = named_pattern(name, r"\s*\.\s*(append|add|update|setdefault)\s*\(|\b");
    r.append(name);
    r.append(r"\s*\[[^\]]*\]\s*=(?:[^=]|$)");
    r
}

fn make_shrink_pattern(name: &str) -> (r: String)
    ensures
        r@ == shrink_pattern(name@),
{
    let mut r = named_pattern(name, r"\s*\.\s*(clear|pop|popitem|remove|discard)\s*\(|^\s*");
    r.append(name);
    r.append(r"\s*=\s*(\[\]|\{\}|set\(\))\s*$");
    r
}

fn make_binding_pattern(name: &str) -> (r: String)
    ensures
        r@ == binding_pattern(name@),
{
    let mut r = String::from_str(
        r"(?:^|;)\s*(?:(?:async\s+)?(?:if|elif|else|for|while|with|try|except|finally|case)\b.*:\s*)?(?:[\w.*()\[\]]+\s*[,=]\s*)*\*?",
    );
    r.append(name);
    r.append(r"\s*(?:,[\w.*()\[\],\s]*)?(?::[^=]*)?=(?:[^=]|$)");
    r
}

fn make_group_binding_pattern(name: &str) -> (r: String)
    ensures
        r@ == group_binding_pattern(name@),
{
    let mut r = String::from_str(r"(?:^|;)\s*[\(\[]\s*(?:[\w.*]+\s*,\s*)*\*?");
    r.append(name);
    r.append(r"\s*(?:,[\w.*,\s]*)?[\)\]]\s*=(?:[^=]|$)");
    r
}

fn make_global_pattern(name: &str) -> (r: String)
    ensures
        r@ == global_pattern(name@),
{
    let mut r = String::from_str(r"(?:^|[;:])\s*global\s+(?:\w+\s*,\s*)*");
    r.append(name);
    r.append(r"\b");
    r
}

// ---- containers ----------------------------------------------------------------------------

/// A module-level container: the line that makes it, its name, and for each line of the
/// file whether it grows a container of that name, and whether it shrinks one or binds the name
/// anew.
#[derive(Debug)]
pub struct Container {
    pub line: usize,
    pub name: String,
    pub grows: Vec<bool>,
    pub shrinks: Vec<bool>,
}

/// What a container match says.
pub struct ContainerText {
    pub line: int,
    pub name: Seq<char>,
    pub grows: Seq<bool>,
    pub shrinks: Seq<bool>,
}

impl View for Container {
    type V = ContainerText;

    open spec fn view(&self) -> ContainerText {
        ContainerText {
            line: self.line as int,
            name: self.name@,
            grows: self.grows@,
            shrinks: self.shrinks@,
        }
    }
}

/// What container matches say.
pub open spec fn container_texts(s: Seq<Container>) -> Seq<ContainerText> {
    Seq::new(s.len(), |i: int| s[i]@)
}

/// The name of the container that a line makes at module level.
pub open spec fn container_name(line: Seq<char>) -> Option<Seq<char>> {
    if begins(line, ' ') || begins(line, '\t') {
        None
    } else {
        captured(CONTAINER_PATTERN@, line, 1)
    }
}

/// For each position, whether it is marked in one or the other.
pub open spec fn either(a: Seq<bool>, b: Seq<bool>) -> Seq<bool> {
    Seq::new(a.len(), |j: int| a[j] || b[j])
}

/// For each line, whether it reads as an assignment to the name.
pub open spec fn bindings(ss: Seq<StatementText>, name: Seq<char>) -> Seq<bool> {
    either(
        matching(binding_pattern(name), tops(ss)),
        matching(group_binding_pattern(name), codes(ss)),
    )
}

/// For each line, whether it assigns to the name of the module.
pub open spec fn assignments(lines: Seq<Seq<char>>, name: Seq<char>) -> Seq<bool> {
    let ss = statements_in(lines);
    rebindings(ss, bindings(ss, name), matching(global_pattern(name), tops(ss)))
}

/// For each line, whether it shrinks the container of the given name, or binds the name anew.
pub open spec fn shrinks_in(lines: Seq<Seq<char>>, name: Seq<char>) -> Seq<bool> {
    either(matching(shrink_pattern(name), lines), assignments(lines, name))
}

/// Whether every pattern that is made for the name of a container compiles.
pub open spec fn container_name_compiles(name: Seq<char>) -> bool {
    &&& regex_accepts(growth_pattern(name))
    &&& regex_accepts(shrink_pattern(name))
    &&& regex_accepts(binding_pattern(name))
    &&& regex_accepts(group_binding_pattern(name))
    &&& regex_accepts(global_pattern(name))
}

/// The containers that the first `n` lines make.
pub open spec fn containers_in(lines: Seq<Seq<char>>, n: int) -> Seq<ContainerText>
    decreases n,
{
    if n <= 0 {
        seq![]
    } else {
        match container_name(lines[n - 1]) {
            Some(name) => containers_in(lines, n - 1).push(
                ContainerText {
                    line: n - 1,
                    name,
                    grows: matching(growth_pattern(name), lines),
                    shrinks: shrinks_in(lines, name),
                },
            ),
            None => containers_in(lines, n - 1),
        }
    }
}

/// Whether every pattern that the search for containers uses compiles.
pub open spec fn container_patterns_compile(lines: Seq<Seq<char>>) -> bool {
    &&& regex_accepts(CONTAINER_PATTERN@)
    &&& regex_accepts(DEF_PATTERN@)
    &&& regex_accepts(CLASS_PATTERN@)
    &&& forall|i: int|
        0 <= i < lines.len() && (#[trigger] container_name(lines[i])) is Some
            ==> container_name_compiles(container_name(lines[i])->0)
}

fn join_marks(a: &Vec<bool>, b: &Vec<bool>) -> (r: Vec<bool>)
    requires
        a@.len() == b@.len(),
    ensures
        r@ == either(a@, b@),
{
    let mut r: Vec<bool> = Vec::new();
    let mut j: usize = 0;
    while j < a.len()
        invariant
            j <= a@.len() == b@.len(),
            r@.len() == j,
            forall|k: int| 0 <= k < j ==> #[trigger] r@[k] == (a@[k] || b@[k]),
        decreases a@.len() - j,
    {
        r.push(a[j] || b[j]);
        j = j + 1;
    }
    assert(r@ =~= either(a@, b@));
    r
}

/// For each line, whether it shrinks the container of the given name, or binds the name anew.
/// `None` if a pattern is not one that compiles.
fn find_shrinks(name: &str, lines: &[&str], statements: &Vec<Statement>) -> (r: Option<Vec<bool>>)
    requires
        statement_texts(statements@) == statements_in(str_texts(lines@)),
    ensures
        r is Some <==> {
            &&& regex_accepts(shrink_pattern(name@))
            &&& regex_accepts(binding_pattern(name@))
            &&& regex_accepts(group_binding_pattern(name@))
            &&& regex_accepts(global_pattern(name@))
        },
        r matches Some(v) ==> v@ == shrinks_in(str_texts(lines@), name@),
{
    let ghost ss = statement_texts(statements@);
    assert(ss.len() == lines@.len());
    let (outside, whole) = code_slices(statements);
    assert(str_texts(outside@).len() == outside@.len());
    assert(str_texts(whole@).len() == whole@.len());
    match (
        match_lines(&make_shrink_pattern(name), lines),
        match_lines(&make_binding_pattern(name), outside.as_slice()),
        match_lines(&make_group_binding_pattern(name), whole.as_slice()),
        match_lines(&make_global_pattern(name), outside.as_slice()),
    ) {
        (Some(shrinks), Some(plain), Some(grouped), Some(globals)) => {
            let binds = join_marks(&plain, &grouped);
            Some(join_marks(&shrinks, &find_rebindings(statements, &binds, &globals)))
        },
        _ => None,
    }
}

/// The containers that the lines make. `None` if a pattern is not one that compiles.
pub fn find_containers(lines: &[&str]) -> (r: Option<Vec<Container>>)
    ensures
        r is Some <==> container_patterns_compile(str_texts(lines@)),
        r matches Some(v) ==> container_texts(v@) == containers_in(
            str_texts(lines@),
            lines@.len() as int,
        ),
{
    let (found, statements) = match (
        capture_lines(CONTAINER_PATTERN, lines),
        find_statements(lines),
    ) {
        (Some(found), Some(statements)) => (found, statements),
        _ => {
            return None;
        },
    };
    let ghost all = str_texts(lines@);
    let mut containers: Vec<Container> = Vec::new();
    let mut i: usize = 0;
    assert(container_texts(containers@) =~= seq![]);
    while i < lines.len()
        invariant
            i <= lines@.len() == found@.len(),
            all == str_texts(lines@),
            statement_texts(statements@) == statements_in(all),
            regex_accepts(CONTAINER_PATTERN@),
            regex_accepts(DEF_PATTERN@),
            regex_accepts(CLASS_PATTERN@),
            forall|k: int|
                0 <= k < found@.len() ==> group_texts(#[trigger] found@[k]) == regex_groups(
                    CONTAINER_PATTERN@,
                    all[k],
                ),
            forall|k: int|
                0 <= k < i && (#[trigger] container_name(all[k])) is Some
                    ==> container_name_compiles(container_name(all[k])->0),
            container_texts(containers@) == containers_in(all, i as int),
        decreases lines@.len() - i,
    {
        assert(all[i as int] == lines@[i as int]@);
        if !begins_with(lines[i], ' ') && !begins_with(lines[i], '\t') {
            if let Some(name) = group(&found[i], 1) {
                assert(container_name(all[i as int]) == Some(name@));
                let grows = match match_lines(&make_growth_pattern(&name), lines) {
                    Some(v) => v,
                    None => {
                        return None;
                    },
                };
                let shrinks = match find_shrinks(&name, lines, &statements) {
                    Some(v) => v,
                    None => {
                        return None;
                    },
                };
                let ghost before = container_texts(containers@);
                containers.push(Container { line: i, name, grows, shrinks });
                assert(container_texts(containers@) =~= before.push(containers@.last()@));
            }
        }
        i = i + 1;
    }
    Some(containers)
}

// ---- caches --------------------------------------------------------------------------------

/// A decorator that caches without a limit.
#[derive(Debug, Clone, Copy, PartialEq, Eq, Structural)]
pub enum CacheKind {
    LruCache,
    Cache,
}

/// A decorator that caches without a limit, and the first line below it.
#[derive(Debug, Clone, Copy, PartialEq, Eq, Structural)]
pub struct CacheMark {
    pub kind: CacheKind,
    pub below: usize,
}

/// Whether arguments give the size of a cache: the first one does, where there is one that is
/// not given by its name, or a `maxsize` is among them.
pub open spec fn gives_size(arguments: Seq<char>) -> bool {
    !regex_matches(NAMED_PATTERN@, arguments) || regex_matches(MAXSIZE_PATTERN@, arguments)
}

/// The unlimited cache decorator that line `i` holds: a `cache`, or an `lru_cache` whose
/// arguments, over as many lines as they take, give no size.
pub open spec fn cache_on(lines: Seq<Seq<char>>, i: int) -> Option<CacheMark> {
    if regex_matches(CACHE_PATTERN@, lines[i]) {
        Some(CacheMark { kind: CacheKind::Cache, below: (i + 1) as usize })
    } else {
        match (
            captured(LRU_CACHE_PATTERN@, lines[i], 1),
            captured(LRU_CACHE_PATTERN@, lines[i], 2),
        ) {
            (Some(_), Some(rest)) => if gives_size(call_top(rest, lines, i + 1)) {
                None
            } else {
                Some(
                    CacheMark {
                        kind: CacheKind::LruCache,
                        below: call_below(rest, lines, i + 1) as usize,
                    },
                )
            },
            (Some(_), None) => Some(
                CacheMark { kind: CacheKind::LruCache, below: (i + 1) as usize },
            ),
            (None, _) => None,
        }
    }
}

/// For each line, the unlimited cache decorator that it holds.
pub open spec fn caches_in(lines: Seq<Seq<char>>) -> Seq<Option<CacheMark>> {
    Seq::new(lines.len(), |i: int| cache_on(lines, i))
}

/// Whether every pattern that the search for caches uses compiles.
pub open spec fn cache_patterns_compile() -> bool {
    &&& regex_accepts(LRU_CACHE_PATTERN@)
    &&& regex_accepts(NAMED_PATTERN@)
    &&& regex_accepts(MAXSIZE_PATTERN@)
    &&& regex_accepts(CACHE_PATTERN@)
}

/// For each line, the unlimited cache decorator that it holds. `None` if a pattern is not
/// one that compiles.
pub fn find_caches(lines: &[&str]) -> (r: Option<Vec<Option<CacheMark>>>)
    ensures
        r is Some <==> cache_patterns_compile(),
        r matches Some(v) ==> v@ == caches_in(str_texts(lines@)),
{
    if !accepts(NAMED_PATTERN) || !accepts(MAXSIZE_PATTERN) {
        return None;
    }
    let (found, cache) = match (
        capture_lines(LRU_CACHE_PATTERN, lines),
        match_lines(CACHE_PATTERN, lines),
    ) {
        (Some(found), Some(cache)) => (found, cache),
        _ => {
            return None;
        },
    };
    let ghost all = str_texts(lines@);
    let mut marks: Vec<Option<CacheMark>> = Vec::new();
    let mut i: usize = 0;
    while i < lines.len()
        invariant
            i <= lines@.len() == found@.len(),
            all == str_texts(lines@),
            marks@.len() == i,
            regex_accepts(NAMED_PATTERN@),
            regex_accepts(MAXSIZE_PATTERN@),
            cache@ == matching(CACHE_PATTERN@, all),
            forall|k: int|
                0 <= k < found@.len() ==> group_texts(#[trigger] found@[k]) == regex_groups(
                    LRU_CACHE_PATTERN@,
                    all[k],
                ),
            forall|k: int| 0 <= k < i ==> #[trigger] marks@[k] == cache_on(all, k),
        decreases lines@.len() - i,
    {
        let mark = if cache[i] {
            Some(CacheMark { kind: CacheKind::Cache, below: i + 1 })
        } else {
            match (group(&found[i], 1), group(&found[i], 2)) {
                (Some(_), Some(rest)) => {
                    let call = read_call(&rest, lines, i + 1);
                    match (
                        match_text(NAMED_PATTERN, &call.top),
                        match_text(MAXSIZE_PATTERN, &call.top),
                    ) {
                        (Some(true), Some(false)) => Some(
                            CacheMark { kind: CacheKind::LruCache, below: call.below },
                        ),
                        _ => None,
                    }
                },
                (Some(_), None) => Some(CacheMark { kind: CacheKind::LruCache, below: i + 1 }),
                (None, _) => None,
            }
        };
        marks.push(mark);
        i = i + 1;
    }
    assert(marks@ =~= caches_in(all));
    Some(marks)
}

// ---- files ---------------------------------------------------------------------------------

/// A file opened outside a `with` block: the line that opens it, the name it is bound to,
/// and for each line of the file whether it closes a file of that name.
#[derive(Debug)]
pub struct OpenedFile {
    pub line: usize,
    pub name: String,
    pub closes: Vec<bool>,
}

/// What an opened file says.
pub struct OpenedText {
    pub line: int,
    pub name: Seq<char>,
    pub closes: Seq<bool>,
}

impl View for OpenedFile {
    type V = OpenedText;

    open spec fn view(&self) -> OpenedText {
        OpenedText { line: self.line as int, name: self.name@, closes: self.closes@ }
    }
}

/// What opened files say.
pub open spec fn opened_texts(s: Seq<OpenedFile>) -> Seq<OpenedText> {
    Seq::new(s.len(), |i: int| s[i]@)
}

/// The name that a line binds to an opened file, unless the line is a `with` statement.
pub open spec fn opened_name(line: Seq<char>) -> Option<Seq<char>> {
    if regex_matches(WITH_OPEN_PATTERN@, line) {
        None
    } else {
        captured(OPEN_PATTERN@, line, 1)
    }
}

/// The files that the first `n` lines open.
pub open spec fn opened_in(lines: Seq<Seq<char>>, n: int) -> Seq<OpenedText>
    decreases n,
{
    if n <= 0 {
        seq![]
    } else {
        match opened_name(lines[n - 1]) {
            Some(name) => opened_in(lines, n - 1).push(
                OpenedText { line: n - 1, name, closes: matching(close_pattern(name), lines) },
            ),
            None => opened_in(lines, n - 1),
        }
    }
}

/// Whether every pattern that the search for opened files uses compiles.
pub open spec fn opened_patterns_compile(lines: Seq<Seq<char>>) -> bool {
    &&& regex_accepts(WITH_OPEN_PATTERN@)
    &&& regex_accepts(OPEN_PATTERN@)
    &&& forall|i: int|
        0 <= i < lines.len() && (#[trigger] opened_name(lines[i])) is Some ==> regex_accepts(
            close_pattern(opened_name(lines[i])->0),
        )
}

/// The files that the lines open. `None` if a pattern is not one that compiles.
pub fn find_opened(lines: &[&str]) -> (r: Option<Vec<OpenedFile>>)
    ensures
        r is Some <==> opened_patterns_compile(str_texts(lines@)),
        r matches Some(v) ==> opened_texts(v@) == opened_in(
            str_texts(lines@),
            lines@.len() as int,
        ),
{
    let (with_open, found) = match (
        match_lines(WITH_OPEN_PATTERN, lines),
        capture_lines(OPEN_PATTERN, lines),
    ) {
        (Some(with_open), Some(found)) => (with_open, found),
        _ => {
            return None;
        },
    };
    let ghost all = str_texts(lines@);
    let mut opened: Vec<OpenedFile> = Vec::new();
    let mut i: usize = 0;
    assert(opened_texts(opened@) =~= seq![]);
    while i < lines.len()
        invariant
            i <= lines@.len() == found@.len(),
            all == str_texts(lines@),
            with_open@ == matching(WITH_OPEN_PATTERN@, all),
            regex_accepts(WITH_OPEN_PATTERN@),
            regex_accepts(OPEN_PATTERN@),
            forall|k: int|
                0 <= k < found@.len() ==> group_texts(#[trigger] found@[k]) == regex_groups(
                    OPEN_PATTERN@,
                    all[k],
                ),
            forall|k: int|
                0 <= k < i && (#[trigger] opened_name(all[k])) is Some ==> regex_accepts(
                    close_pattern(opened_name(all[k])->0),
                ),
            opened_texts(opened@) == opened_in(all, i as int),
        decreases lines@.len() - i,
    {
        if !with_open[i] {
            if let Some(name) = group(&found[i], 1) {
                assert(opened_name(all[i as int]) == Some(name@));
                let closes = match match_lines(&named_pattern(&name, r"\s*\.\s*close\s*\("), lines) {
                    Some(v) => v,
                    None => {
                        return None;
                    },
                };
                let ghost before = opened_texts(opened@);
                opened.push(OpenedFile { line: i, name, closes });
                assert(opened_texts(opened@) =~= before.push(opened@.last()@));
            }
        }
        i = i + 1;
    }
    Some(opened)
}

// ---- threads -------------------------------------------------------------------------------

/// A thread or timer made without `daemon=True`: the line that makes it, its class, the
/// name it is bound to, and for each line of the file whether it joins a thread of that
/// name.
#[derive(Debug)]
pub struct StartedThread {
    pub line: usize,
    pub kind: String,
    pub name: String,
    pub joins: Vec<bool>,
}

/// What a thread match says.
pub struct ThreadText {
    pub line: int,
    pub kind: Seq<char>,
    pub name: Seq<char>,
    pub joins: Seq<bool>,
}

impl View for StartedThread {
    type V = ThreadText;

    open spec fn view(&self) -> ThreadText {
        ThreadText {
            line: self.line as int,
            kind: self.kind@,
            name: self.name@,
            joins: self.joins@,
        }
    }
}

/// What thread matches say.
pub open spec fn thread_texts(s: Seq<StartedThread>) -> Seq<ThreadText> {
    Seq::new(s.len(), |i: int| s[i]@)
}

/// The class of the thread that line `i` makes and the name it is bound to, unless the call
/// that makes it, over as many lines as it takes, makes it a daemon.
pub open spec fn thread_on(lines: Seq<Seq<char>>, i: int) -> Option<(Seq<char>, Seq<char>)> {
    match (
        captured(THREAD_PATTERN@, lines[i], 3),
        captured(THREAD_PATTERN@, lines[i], 1),
        captured(THREAD_PATTERN@, lines[i], 4),
    ) {
        (Some(kind), Some(name), Some(rest)) => if regex_matches(
            DAEMON_PATTERN@,
            call_code(rest, lines, i + 1),
        ) {
            None
        } else {
            Some((kind, name))
        },
        _ => None,
    }
}

/// The threads that the first `n` lines make.
pub open spec fn threads_in(lines: Seq<Seq<char>>, n: int) -> Seq<ThreadText>
    decreases n,
{
    if n <= 0 {
        seq![]
    } else {
        match thread_on(lines, n - 1) {
            Some((kind, name)) => threads_in(lines, n - 1).push(
                ThreadText {
                    line: n - 1,
                    kind,
                    name,
                    joins: matching(join_pattern(name), lines),
                },
            ),
            None => threads_in(lines, n - 1),
        }
    }
}

/// Whether every pattern that the search for threads uses compiles.
pub open spec fn thread_patterns_compile(lines: Seq<Seq<char>>) -> bool {
    &&& regex_accepts(THREAD_PATTERN@)
    &&& regex_accepts(DAEMON_PATTERN@)
    &&& forall|i: int|
        0 <= i < lines.len() && (#[trigger] thread_on(lines, i)) is Some ==> regex_accepts(
            join_pattern((thread_on(lines, i)->0).1),
        )
}

/// The threads that the lines make. `None` if a pattern is not one that compiles.
pub fn find_threads(lines: &[&str]) -> (r: Option<Vec<StartedThread>>)
    ensures
        r is Some <==> thread_patterns_compile(str_texts(lines@)),
        r matches Some(v) ==> thread_texts(v@) == threads_in(
            str_texts(lines@),
            lines@.len() as int,
        ),
{
    if !accepts(DAEMON_PATTERN) {
        return None;
    }
    let found = match capture_lines(THREAD_PATTERN, lines) {
        Some(found) => found,
        None => {
            return None;
        },
    };
    let ghost all = str_texts(lines@);
    let mut threads: Vec<StartedThread> = Vec::new();
    let mut i: usize = 0;
    assert(thread_texts(threads@) =~= seq![]);
    while i < lines.len()
        invariant
            i <= lines@.len() == found@.len(),
            all == str_texts(lines@),
            regex_accepts(THREAD_PATTERN@),
            regex_accepts(DAEMON_PATTERN@),
            forall|k: int|
                0 <= k < found@.len() ==> group_texts(#[trigger] found@[k]) == regex_groups(
                    THREAD_PATTERN@,
                    all[k],
                ),
            forall|k: int|
                0 <= k < i && (#[trigger] thread_on(all, k)) is Some ==> regex_accepts(
                    join_pattern((thread_on(all, k)->0).1),
                ),
            thread_texts(threads@) == threads_in(all, i as int),
        decreases lines@.len() - i,
    {
        if let (Some(kind), Some(name), Some(rest)) = (
            group(&found[i], 3),
            group(&found[i], 1),
            group(&found[i], 4),
        ) {
            let call = read_call(&rest, lines, i + 1);
            if let Some(false) = match_text(DAEMON_PATTERN, &call.code) {
                assert(thread_on(all, i as int) == Some((kind@, name@)));
                let joins = match match_lines(&named_pattern(&name, r"\s*\.\s*join\s*\("), lines) {
                    Some(v) => v,
                    None => {
                        return None;
                    },
                };
                let ghost before = thread_texts(threads@);
                threads.push(StartedThread { line: i, kind, name, joins });
                assert(thread_texts(threads@) =~= before.push(threads@.last()@));
            }
        }
        i = i + 1;
    }
    Some(threads)
}

// ---- registries ----------------------------------------------------------------------------

/// A list named like a registry of callbacks: its name, and for each line of the file
/// whether it appends to and whether it removes from a list of that name.
#[derive(Debug)]
pub struct Registry {
    pub name: String,
    pub appends: Vec<bool>,
    pub removes: Vec<bool>,
}

/// What a registry match says.
pub struct RegistryText {
    pub name: Seq<char>,
    pub appends: Seq<bool>,
    pub removes: Seq<bool>,
}

impl View for Registry {
    type V = RegistryText;

    open spec fn view(&self) -> RegistryText {
        RegistryText { name: self.name@, appends: self.appends@, removes: self.removes@ }
    }
}

/// What registry matches say.
pub open spec fn registry_texts(s: Seq<Registry>) -> Seq<RegistryText> {
    Seq::new(s.len(), |i: int| s[i]@)
}

/// The name that a line appends to, where it is the name of a registry.
pub open spec fn registry_name(line: Seq<char>) -> Option<Seq<char>> {
    match captured(APPEND_PATTERN@, line, 1) {
        Some(name) => if regex_matches(LISTENER_PATTERN@, name) {
            Some(name)
        } else {
            None
        },
        None => None,
    }
}

/// The names of the registries that the first `n` lines append to, each once, in the order
/// in which they first come up.
pub open spec fn registry_names(lines: Seq<Seq<char>>, n: int) -> Seq<Seq<char>>
    decreases n,
{
    if n <= 0 {
        seq![]
    } else {
        let names = registry_names(lines, n - 1);
        match registry_name(lines[n - 1]) {
            Some(name) => if names.contains(name) {
                names
            } else {
                names.push(name)
            },
            None => names,
        }
    }
}

/// The registry of the given name.
pub open spec fn registry_of(name: Seq<char>, lines: Seq<Seq<char>>) -> RegistryText {
    RegistryText {
        name,
        appends: matching(registration_pattern(name), lines),
        removes: matching(removal_pattern(name), lines),
    }
}

/// The registries that the lines append to.
pub open spec fn registries_in(lines: Seq<Seq<char>>) -> Seq<RegistryText> {
    let names = registry_names(lines, lines.len() as int);
    Seq::new(names.len(), |k: int| registry_of(names[k], lines))
}

/// Whether every pattern that the search for registries uses compiles.
pub open spec fn registry_patterns_compile(lines: Seq<Seq<char>>) -> bool {
    let names = registry_names(lines, lines.len() as int);
    &&& regex_accepts(APPEND_PATTERN@)
    &&& regex_accepts(LISTENER_PATTERN@)
    &&& forall|k: int|
        0 <= k < names.len() ==> {
            &&& regex_accepts(registration_pattern(#[trigger] names[k]))
            &&& regex_accepts(removal_pattern(names[k]))
        }
}

/// Whether a name is among the given ones.
fn has_name(names: &Vec<String>, name: &String) -> (r: bool)
    ensures
        r == texts(names@).contains(name@),
{
    let mut i: usize = 0;
    while i < names.len()
        invariant
            i <= names@.len(),
            forall|k: int| 0 <= k < i ==> names@[k]@ != name@,
        decreases names@.len() - i,
    {
        if names[i] == *name {
            assert(texts(names@)[i as int] == name@);
            return true;
        }
        i = i + 1;
    }
    false
}

/// The names of the registries that the lines append to. `None` if a pattern is not one
/// that compiles.
fn find_registry_names(lines: &[&str]) -> (r: Option<Vec<String>>)
    ensures
        r is Some <==> regex_accepts(APPEND_PATTERN@) && regex_accepts(LISTENER_PATTERN@),
        r matches Some(v) ==> texts(v@) == registry_names(
            str_texts(lines@),
            lines@.len() as int,
        ),
{
    if !accepts(LISTENER_PATTERN) {
        return None;
    }
    let found = match capture_lines(APPEND_PATTERN, lines) {
        Some(found) => found,
        None => {
            return None;
        },
    };
    let ghost all = str_texts(lines@);
    let mut names: Vec<String> = Vec::new();
    let mut i: usize = 0;
    assert(texts(names@) =~= seq![]);
    while i < lines.len()
        invariant
            i <= lines@.len() == found@.len(),
            all == str_texts(lines@),
            regex_accepts(APPEND_PATTERN@),
            regex_accepts(LISTENER_PATTERN@),
            forall|k: int|
                0 <= k < found@.len() ==> group_texts(#[trigger] found@[k]) == regex_groups(
                    APPEND_PATTERN@,
                    all[k],
                ),
            texts(names@) == registry_names(all, i as int),
        decreases lines@.len() - i,
    {
        if let Some(name) = group(&found[i], 1) {
            assert(captured(APPEND_PATTERN@, all[i as int], 1) == Some(name@));
            if let Some(true) = match_text(LISTENER_PATTERN, &name) {
                if !has_name(&names, &name) {
                    let ghost before = texts(names@);
                    names.push(name);
                    assert(texts(names@) =~= before.push(name@));
                }
            }
        }
        i = i + 1;
    }
    Some(names)
}

/// The registries that the lines append to. `None` if a pattern is not one that compiles.
pub fn find_registries(lines: &[&str]) -> (r: Option<Vec<Registry>>)
    ensures
        r is Some <==> registry_patterns_compile(str_texts(lines@)),
        r matches Some(v) ==> registry_texts(v@) == registries_in(str_texts(lines@)),
{
    let names = match find_registry_names(lines) {
        Some(names) => names,
        None => {
            return None;
        },
    };
    let ghost all = str_texts(lines@);
    let ghost wanted = registry_names(all, all.len() as int);
    let mut registries: Vec<Registry> = Vec::new();
    let mut k: usize = 0;
    while k < names.len()
        invariant
            k <= names@.len() == wanted.len(),
            registries@.len() == k,
            all == str_texts(lines@),
            wanted == registry_names(all, all.len() as int),
            texts(names@) == wanted,
            regex_accepts(APPEND_PATTERN@),
            regex_accepts(LISTENER_PATTERN@),
            forall|j: int|
                0 <= j < k ==> {
                    &&& regex_accepts(registration_pattern(#[trigger] wanted[j]))
                    &&& regex_accepts(removal_pattern(wanted[j]))
                },
            forall|j: int|
                0 <= j < k ==> (#[trigger] registries@[j])@ == registry_of(wanted[j], all),
        decreases names@.len() - k,
    {
        assert(wanted[k as int] == names@[k as int]@);
        let appends = match match_lines(&named_pattern(&names[k], r"\s*\.\s*append\s*\("), lines) {
            Some(v) => v,
            None => {
                return None;
            },
        };
        let removes = match match_lines(
            &named_pattern(&names[k], r"\s*\.\s*(remove|pop|discard|clear)\s*\("),
            lines,
        ) {
            Some(v) => v,
            None => {
                return None;
            },
        };
        registries.push(Registry { name: names[k].clone(), appends, removes });
        k = k + 1;
    }
    assert(registry_texts(registries@) =~= registries_in(all));
    Some(registries)
}

// ---- what the patterns are made of ---------------------------------------------------------

/// A pattern for a call of one of several methods on a name.
pub open spec fn calls_one_of(name: Seq<char>, methods: Seq<Seq<char>>) -> Seq<char> {
    seq!['\\', 'b'] + name + seq!['\\', 's', '*', '\\', '.', '\\', 's', '*', '('] + joined(
        methods,
        seq!['|'],
    ) + seq![')', '\\', 's', '*', '\\', '(']
}

/// A pattern for a call of a method on a name.
pub open spec fn calls(name: Seq<char>, method: Seq<char>) -> Seq<char> {
    seq!['\\', 'b'] + name + seq!['\\', 's', '*', '\\', '.', '\\', 's', '*'] + method
        + seq!['\\', 's', '*', '\\', '(']
}

/// A pattern for an assignment to an item of a name.
pub open spec fn assigns_item(name: Seq<char>) -> Seq<char> {
    seq!['\\', 'b'] + name + seq![
        '\\', 's', '*', '\\', '[', '[', '^', '\\', ']', ']', '*', '\\', ']', '\\', 's', '*', '=',
        '(', '?', ':', '[', '^', '=', ']', '|', '$', ')',
    ]
}

/// A pattern for a line that binds a name to an empty list, dict or set.
pub open spec fn binds_empty(name: Seq<char>) -> Seq<char> {
    seq!['^', '\\', 's', '*'] + name + seq![
        '\\', 's', '*', '=', '\\', 's', '*', '(', '\\', '[', '\\', ']', '|', '\\', '{', '\\', '}',
        '|', 's', 'e', 't', '\\', '(', '\\', ')', ')', '\\', 's', '*', '$',
    ]
}

proof fn lemma_joined_four(a: Seq<char>, b: Seq<char>, c: Seq<char>, d: Seq<char>, s: Seq<char>)
    ensures
        joined(seq![a, b, c, d], s) == a + s + b + s + c + s + d,
{
    reveal_with_fuel(joined, 5);
    assert(seq![a, b, c, d].drop_last() =~= seq![a, b, c]);
    assert(seq![a, b, c].drop_last() =~= seq![a, b]);
    assert(seq![a, b].drop_last() =~= seq![a]);
}

proof fn lemma_joined_five(
    a: Seq<char>,
    b: Seq<char>,
    c: Seq<char>,
    d: Seq<char>,
    e: Seq<char>,
    s: Seq<char>,
)
    ensures
        joined(seq![a, b, c, d, e], s) == a + s + b + s + c + s + d + s + e,
{
    lemma_joined_four(a, b, c, d, s);
    assert(seq![a, b, c, d, e].drop_last() =~= seq![a, b, c, d]);
    assert(joined(seq![a, b, c, d, e], s) == joined(seq![a, b, c, d], s) + s + e);
}

/// A line grows a container of a name just where it calls `append`, `add`, `update` or
/// `setdefault` on the name, or assigns to an item of it: the pattern is, character for
/// character, the one for these four methods or the one for the assignment.
pub proof fn law_growth_pattern(name: Seq<char>)
    ensures
        growth_pattern(name) == calls_one_of(
            name,
            seq![
                seq!['a', 'p', 'p', 'e', 'n', 'd'],
                seq!['a', 'd', 'd'],
                seq!['u', 'p', 'd', 'a', 't', 'e'],
                seq!['s', 'e', 't', 'd', 'e', 'f', 'a', 'u', 'l', 't'],
            ],
        ) + seq!['|'] + assigns_item(name),
{
    reveal_strlit(r"\b");
    reveal_strlit(r"\s*\.\s*(append|add|update|setdefault)\s*\(|\b");
    reveal_strlit(r"\s*\[[^\]]*\]\s*=(?:[^=]|$)");
    lemma_joined_four(
        seq!['a', 'p', 'p', 'e', 'n', 'd'],
        seq!['a', 'd', 'd'],
        seq!['u', 'p', 'd', 'a', 't', 'e'],
        seq!['s', 'e', 't', 'd', 'e', 'f', 'a', 'u', 'l', 't'],
        seq!['|'],
    );
}

/// A line shrinks a container of a name just where it calls `clear`, `pop`, `popitem`, `remove`
/// or `discard` on the name, or binds the name to an empty list, dict or set.
pub proof fn law_shrink_pattern(name: Seq<char>)
    ensures
        shrink_pattern(name) == calls_one_of(
            name,
            seq![
                seq!['c', 'l', 'e', 'a', 'r'],
                seq!['p', 'o', 'p'],
                seq!['p', 'o', 'p', 'i', 't', 'e', 'm'],
                seq!['r', 'e', 'm', 'o', 'v', 'e'],
                seq!['d', 'i', 's', 'c', 'a', 'r', 'd'],
            ],
        ) + seq!['|'] + binds_empty(name),
{
    reveal_strlit(r"\b");
    reveal_strlit(r"\s*\.\s*(clear|pop|popitem|remove|discard)\s*\(|^\s*");
    reveal_strlit(r"\s*=\s*(\[\]|\{\}|set\(\))\s*$");
    lemma_joined_five(
        seq!['c', 'l', 'e', 'a', 'r'],
        seq!['p', 'o', 'p'],
        seq!['p', 'o', 'p', 'i', 't', 'e', 'm'],
        seq!['r', 'e', 'm', 'o', 'v', 'e'],
        seq!['d', 'i', 's', 'c', 'a', 'r', 'd'],
        seq!['|'],
    );
}

/// A line closes a file, joins a thread or registers a callback just where it calls `close`,
/// `join` or `append` on the name; it removes a callback just where it calls `remove`, `pop`,
/// `discard` or `clear`.
pub proof fn law_call_patterns(name: Seq<char>)
    ensures
        close_pattern(name) == calls(name, seq!['c', 'l', 'o', 's', 'e']),
        join_pattern(name) == calls(name, seq!['j', 'o', 'i', 'n']),
        registration_pattern(name) == calls(name, seq!['a', 'p', 'p', 'e', 'n', 'd']),
        removal_pattern(name) == calls_one_of(
            name,
            seq![
                seq!['r', 'e', 'm', 'o', 'v', 'e'],
                seq!['p', 'o', 'p'],
                seq!['d', 'i', 's', 'c', 'a', 'r', 'd'],
                seq!['c', 'l', 'e', 'a', 'r'],
            ],
        ),
{
    reveal_strlit(r"\b");
    reveal_strlit(r"\s*\.\s*close\s*\(");
    reveal_strlit(r"\s*\.\s*join\s*\(");
    reveal_strlit(r"\s*\.\s*append\s*\(");
    reveal_strlit(r"\s*\.\s*(remove|pop|discard|clear)\s*\(");
    lemma_joined_four(
        seq!['r', 'e', 'm', 'o', 'v', 'e'],
        seq!['p', 'o', 'p'],
        seq!['d', 'i', 's', 'c', 'a', 'r', 'd'],
        seq!['c', 'l', 'e', 'a', 'r'],
        seq!['|'],
    );
}

/// The names of what is looked for: each pattern names every one of them, and no other word
/// stands between its alternatives.
pub proof fn law_fixed_patterns()
    ensures
        CONTAINER_PATTERN@ == r"^([A-Za-z_]\w*)"@ + binds_empty(seq![]).skip(4),
        OPEN_PATTERN@ == r"(\w+)\s*=\s*"@ + r"open\s*\("@,
        WITH_OPEN_PATTERN@ == r"^\s*with\s+"@ + r"open\s*\("@,
        THREAD_PATTERN@ == r"(\w+)\s*=\s*"@ + r"(threading\.)?("@ + joined(
            seq!["Thread"@, "Timer"@],
            seq!['|'],
        ) + r")\s*\((.*)"@,
        DAEMON_PATTERN@ == "daemon"@ + r"\s*=\s*"@ + "True"@,
        FINALIZER_PATTERN@ == r"^\s*def\s+"@ + "__del__"@ + r"\s*\("@,
        APPEND_PATTERN@ == r"(\w+)"@ + calls(seq![], "append"@).skip(2),
        LISTENER_PATTERN@ == "(?i)("@ + joined(
            seq!["listener"@, "callback"@, "handler"@, "subscriber"@, "observer"@],
            seq!['|'],
        ) + ")"@,
        CACHE_PATTERN@ == r"^\s*@"@ + r"(functools\.)?"@ + r"cache\s*(#.*)?$"@,
        LRU_CACHE_PATTERN@ == r"^\s*@"@ + r"((?:functools\.)?lru_cache)"@
            + r"\s*(?:#.*|\((.*))?$"@,
        MAXSIZE_PATTERN@ == r"\bmaxsize"@ + r"\s*="@ + r"(?:[^=]|$)"@,
        NAMED_PATTERN@ == r"^\s*(?:[^\W\d]\w*"@ + r"\s*="@ + r"(?:[^=]|$)"@ + "|$)"@,
{
    lemma_words_of_patterns();
    lemma_words_of_caches();
    lemma_joined_five(
        "listener"@,
        "callback"@,
        "handler"@,
        "subscriber"@,
        "observer"@,
        seq!['|'],
    );
    reveal_strlit(r"(?i)(listener|callback|handler|subscriber|observer)");
    reveal_strlit("(?i)(");
    reveal_strlit(")");
    reveal_strlit("listener");
    reveal_strlit("callback");
    reveal_strlit("handler");
    reveal_strlit("subscriber");
    reveal_strlit("observer");
}

proof fn lemma_words_of_patterns()
    ensures
        CONTAINER_PATTERN@ == r"^([A-Za-z_]\w*)"@ + binds_empty(seq![]).skip(4),
        OPEN_PATTERN@ == r"(\w+)\s*=\s*"@ + r"open\s*\("@,
        WITH_OPEN_PATTERN@ == r"^\s*with\s+"@ + r"open\s*\("@,
        THREAD_PATTERN@ == r"(\w+)\s*=\s*"@ + r"(threading\.)?("@ + joined(
            seq!["Thread"@, "Timer"@],
            seq!['|'],
        ) + r")\s*\((.*)"@,
        DAEMON_PATTERN@ == "daemon"@ + r"\s*=\s*"@ + "True"@,
        FINALIZER_PATTERN@ == r"^\s*def\s+"@ + "__del__"@ + r"\s*\("@,
        APPEND_PATTERN@ == r"(\w+)"@ + calls(seq![], "append"@).skip(2),
{
    reveal_strlit(r"^([A-Za-z_]\w*)\s*=\s*(\[\]|\{\}|set\(\))\s*$");
    reveal_strlit(r"^([A-Za-z_]\w*)");
    reveal_strlit(r"(\w+)\s*=\s*open\s*\(");
    reveal_strlit(r"(\w+)\s*=\s*");
    reveal_strlit(r"open\s*\(");
    reveal_strlit(r"^\s*with\s+open\s*\(");
    reveal_strlit(r"^\s*with\s+");
    reveal_strlit(r"(\w+)\s*=\s*(threading\.)?(Thread|Timer)\s*\((.*)");
    reveal_strlit(r"(threading\.)?(");
    reveal_strlit(r")\s*\((.*)");
    reveal_strlit("Thread");
    reveal_strlit("Timer");
    reveal_with_fuel(joined, 3);
    assert(seq!["Thread"@, "Timer"@].drop_last() =~= seq!["Thread"@]);
    reveal_strlit(r"daemon\s*=\s*True");
    reveal_strlit("daemon");
    reveal_strlit(r"\s*=\s*");
    reveal_strlit("True");
    reveal_strlit(r"^\s*def\s+__del__\s*\(");
    reveal_strlit(r"^\s*def\s+");
    reveal_strlit("__del__");
    reveal_strlit(r"\s*\(");
    reveal_strlit(r"(\w+)\s*\.\s*append\s*\(");
    reveal_strlit(r"(\w+)");
    reveal_strlit("append");
}

proof fn lemma_words_of_caches()
    ensures
        CACHE_PATTERN@ == r"^\s*@"@ + r"(functools\.)?"@ + r"cache\s*(#.*)?$"@,
        LRU_CACHE_PATTERN@ == r"^\s*@"@ + r"((?:functools\.)?lru_cache)"@
            + r"\s*(?:#.*|\((.*))?$"@,
        MAXSIZE_PATTERN@ == r"\bmaxsize"@ + r"\s*="@ + r"(?:[^=]|$)"@,
        NAMED_PATTERN@ == r"^\s*(?:[^\W\d]\w*"@ + r"\s*="@ + r"(?:[^=]|$)"@ + "|$)"@,
{
    reveal_strlit(r"^\s*@(functools\.)?cache\s*(#.*)?$");
    reveal_strlit(r"^\s*@");
    reveal_strlit(r"(functools\.)?");
    reveal_strlit(r"cache\s*(#.*)?$");
    reveal_strlit(r"^\s*@((?:functools\.)?lru_cache)\s*(?:#.*|\((.*))?$");
    reveal_strlit(r"((?:functools\.)?lru_cache)");
    reveal_strlit(r"\s*(?:#.*|\((.*))?$");
    reveal_strlit(r"\bmaxsize\s*=(?:[^=]|$)");
    reveal_strlit(r"\bmaxsize");
    reveal_strlit(r"\s*=");
    reveal_strlit(r"(?:[^=]|$)");
    reveal_strlit(r"^\s*(?:[^\W\d]\w*\s*=(?:[^=]|$)|$)");
    reveal_strlit(r"^\s*(?:[^\W\d]\w*");
    reveal_strlit("|$)");
}

/// The patterns for assignments and `global` declarations name every keyword that can open a
/// compound statement, and stop at a name that is followed by `=` and not by `==`.
pub proof fn law_binding_patterns(name: Seq<char>)
    ensures
        binding_pattern(name) == r"(?:^|;)\s*"@ + r"(?:(?:async\s+)?(?:"@ + (
        "if|elif|else|for|while|with|try|except|finally|case"@) + r")\b.*:\s*)?"@
            + r"(?:[\w.*()\[\]]+\s*[,=]\s*)*\*?"@ + name + r"\s*(?:,[\w.*()\[\],\s]*)?"@
            + r"(?::[^=]*)?"@ + "="@ + r"(?:[^=]|$)"@,
        group_binding_pattern(name) == r"(?:^|;)\s*"@ + r"[\(\[]\s*"@
            + r"(?:[\w.*]+\s*,\s*)*\*?"@ + name + r"\s*(?:,[\w.*,\s]*)?"@ + r"[\)\]]\s*"@ + "="@
            + r"(?:[^=]|$)"@,
        global_pattern(name) == r"(?:^|[;:])\s*"@ + r"global\s+"@ + r"(?:\w+\s*,\s*)*"@ + name
            + r"\b"@,
{
    reveal_strlit(r"(?:^|;)\s*");
    reveal_strlit("=");
    reveal_strlit(r"(?:[^=]|$)");
    assert(binding_pattern(name) =~= r"(?:^|;)\s*"@ + r"(?:(?:async\s+)?(?:"@ + (
    "if|elif|else|for|while|with|try|except|finally|case"@) + r")\b.*:\s*)?"@
        + r"(?:[\w.*()\[\]]+\s*[,=]\s*)*\*?"@ + name + r"\s*(?:,[\w.*()\[\],\s]*)?"@
        + r"(?::[^=]*)?"@ + "="@ + r"(?:[^=]|$)"@) by {
        reveal_strlit(
            r"(?:^|;)\s*(?:(?:async\s+)?(?:if|elif|else|for|while|with|try|except|finally|case)\b.*:\s*)?(?:[\w.*()\[\]]+\s*[,=]\s*)*\*?",
        );
        reveal_strlit(r"\s*(?:,[\w.*()\[\],\s]*)?(?::[^=]*)?=(?:[^=]|$)");
        reveal_strlit(r"(?:(?:async\s+)?(?:");
        reveal_strlit("if|elif|else|for|while|with|try|except|finally|case");
        reveal_strlit(r")\b.*:\s*)?");
        reveal_strlit(r"(?:[\w.*()\[\]]+\s*[,=]\s*)*\*?");
        reveal_strlit(r"\s*(?:,[\w.*()\[\],\s]*)?");
        reveal_strlit(r"(?::[^=]*)?");
    }
    assert(group_binding_pattern(name) =~= r"(?:^|;)\s*"@ + r"[\(\[]\s*"@
        + r"(?:[\w.*]+\s*,\s*)*\*?"@ + name + r"\s*(?:,[\w.*,\s]*)?"@ + r"[\)\]]\s*"@ + "="@
        + r"(?:[^=]|$)"@) by {
        reveal_strlit(r"(?:^|;)\s*[\(\[]\s*(?:[\w.*]+\s*,\s*)*\*?");
        reveal_strlit(r"\s*(?:,[\w.*,\s]*)?[\)\]]\s*=(?:[^=]|$)");
        reveal_strlit(r"[\(\[]\s*");
        reveal_strlit(r"(?:[\w.*]+\s*,\s*)*\*?");
        reveal_strlit(r"\s*(?:,[\w.*,\s]*)?");
        reveal_strlit(r"[\)\]]\s*");
    }
    reveal_strlit(r"(?:^|[;:])\s*global\s+(?:\w+\s*,\s*)*");
    reveal_strlit(r"(?:^|[;:])\s*");
    reveal_strlit(r"global\s+");
    reveal_strlit(r"(?:\w+\s*,\s*)*");
}

// ---- what is found -------------------------------------------------------------------------

/// A group of a match is what the match holds for it; without a match, or with fewer groups,
/// there is none.
pub proof fn law_captured(pattern: Seq<char>, text: Seq<char>, k: int)
    ensures
        regex_groups(pattern, text) is None ==> captured(pattern, text, k) is None,
        regex_groups(pattern, text) matches Some(g) ==> {
            &&& 0 <= k < g.len() ==> captured(pattern, text, k) == g[k]
            &&& !(0 <= k < g.len()) ==> captured(pattern, text, k) is None
        },
{
}

/// The marks of lines are one for each line, and say of each whether the pattern is found in it.
pub proof fn law_matching(pattern: Seq<char>, lines: Seq<Seq<char>>, j: int)
    requires
        0 <= j < lines.len(),
    ensures
        matching(pattern, lines).len() == lines.len(),
        matching(pattern, lines)[j] <==> regex_matches(pattern, lines[j]),
{
}

/// A line that is indented makes no container of the module; any other makes the one that its
/// first group names.
pub proof fn law_container_name(line: Seq<char>)
    ensures
        line.len() > 0 && (line[0] == ' ' || line[0] == '\t') ==> container_name(line) is None,
        !(line.len() > 0 && (line[0] == ' ' || line[0] == '\t')) ==> container_name(line)
            == captured(CONTAINER_PATTERN@, line, 1),
{
}

/// A line opens a file that is left open where it binds what `open` gives and is no `with`.
pub proof fn law_opened_name(line: Seq<char>)
    ensures
        opened_name(line) is Some ==> !regex_matches(WITH_OPEN_PATTERN@, line) && opened_name(
            line,
        ) == captured(OPEN_PATTERN@, line, 1),
        opened_name(line) is None ==> regex_matches(WITH_OPEN_PATTERN@, line) || captured(
            OPEN_PATTERN@,
            line,
            1,
        ) is None,
{
}

/// A registry is a name that is appended to and that sounds like a registry.
pub proof fn law_registry_name(line: Seq<char>, name: Seq<char>)
    ensures
        registry_name(line) == Some(name) <==> captured(APPEND_PATTERN@, line, 1) == Some(name)
            && regex_matches(LISTENER_PATTERN@, name),
{
}

/// Every line that makes a container makes exactly one, in the order of the lines. Of each line
/// of the file it is said whether it grows the container, and whether it shrinks it or binds the
/// name anew.
pub proof fn law_containers_in(lines: Seq<Seq<char>>, n: int)
    requires
        0 <= n <= lines.len(),
    ensures
        forall|i: int, k: int|
            0 <= i < k < containers_in(lines, n).len() ==> (#[trigger] containers_in(
                lines,
                n,
            )[i]).line < (#[trigger] containers_in(lines, n)[k]).line,
        forall|k: int|
            0 <= k < containers_in(lines, n).len() ==> container_stands(
                lines,
                #[trigger] containers_in(lines, n)[k],
                n,
            ),
        forall|i: int|
            0 <= i < n && (#[trigger] container_name(lines[i])) is Some ==> exists|k: int|
                0 <= k < containers_in(lines, n).len() && (#[trigger] containers_in(
                    lines,
                    n,
                )[k]).line == i,
    decreases n,
{
    if n > 0 {
        law_containers_in(lines, n - 1);
        let fewer = containers_in(lines, n - 1);
        let all = containers_in(lines, n);
        assert(forall|k: int| 0 <= k < fewer.len() ==> fewer[k] == #[trigger] all[k]);
        assert forall|k: int| 0 <= k < all.len() implies container_stands(
            lines,
            #[trigger] all[k],
            n,
        ) by {
            if k < fewer.len() {
                assert(container_stands(lines, fewer[k], n - 1));
            } else {
                assert(shrinks_in(lines, all[k].name).len() == lines.len());
            }
        }
        assert forall|i: int|
            0 <= i < n && (#[trigger] container_name(lines[i])) is Some implies exists|k: int|
            0 <= k < all.len() && (#[trigger] all[k]).line == i by {
            if i < n - 1 {
                let k = choose|k: int| 0 <= k < fewer.len() && (#[trigger] fewer[k]).line == i;
                assert(all[k].line == i);
            } else {
                assert(all[all.len() - 1].line == i);
            }
        }
    }
}

/// Whether a container is the one that its line, one of the first `n`, makes.
pub open spec fn container_stands(lines: Seq<Seq<char>>, c: ContainerText, n: int) -> bool {
    &&& 0 <= c.line < n
    &&& container_name(lines[c.line]) == Some(c.name)
    &&& c.grows.len() == lines.len() == c.shrinks.len()
    &&& forall|j: int|
        0 <= j < lines.len() ==> (#[trigger] c.grows[j] <==> regex_matches(
            growth_pattern(c.name),
            lines[j],
        ))
    &&& forall|j: int|
        0 <= j < lines.len() ==> (#[trigger] c.shrinks[j] <==> regex_matches(
            shrink_pattern(c.name),
            lines[j],
        ) || assignments(lines, c.name)[j])
}

/// A line assigns to a name of the module where a statement begins on it that opens no function
/// or class, it reads as an assignment, plain or grouped, and it stands at module level or in a
/// function that declares the name global.
pub proof fn law_assignments(lines: Seq<Seq<char>>, name: Seq<char>, j: int)
    requires
        0 <= j < lines.len(),
    ensures
        assignments(lines, name).len() == lines.len(),
        assignments(lines, name)[j] <==> {
            let ss = statements_in(lines);
            &&& ss[j].fresh
            &&& ss[j].opens is None
            &&& regex_matches(binding_pattern(name), ss[j].top) || regex_matches(
                group_binding_pattern(name),
                ss[j].code,
            )
            &&& match owner(ss, j) {
                None => true,
                Some(h) => ss[h].opens == Some(Opens::Function) && exists|k: int|
                    0 <= k < ss.len() && (#[trigger] ss[k]).fresh && owner(ss, k) == Some(h)
                        && regex_matches(global_pattern(name), ss[k].top),
            }
        },
{
    let ss = statements_in(lines);
    let globals = matching(global_pattern(name), tops(ss));
    if let Some(h) = owner(ss, j) {
        assert forall|k: int| 0 <= k < ss.len() implies (declares(ss, globals, h, k) <==> (
        #[trigger] ss[k]).fresh && owner(ss, k) == Some(h) && regex_matches(
            global_pattern(name),
            ss[k].top,
        )) by {}
        if exists|k: int| 0 <= k < ss.len() && #[trigger] declares(ss, globals, h, k) {
            let k = choose|k: int| 0 <= k < ss.len() && #[trigger] declares(ss, globals, h, k);
            assert(ss[k].fresh);
        }
        if exists|k: int|
            0 <= k < ss.len() && (#[trigger] ss[k]).fresh && owner(ss, k) == Some(h)
                && regex_matches(global_pattern(name), ss[k].top) {
            let k = choose|k: int|
                0 <= k < ss.len() && (#[trigger] ss[k]).fresh && owner(ss, k) == Some(h)
                    && regex_matches(global_pattern(name), ss[k].top);
            assert(declares(ss, globals, h, k));
        }
    }
}

/// Whether an opened file is the one that its line, one of the first `n`, opens.
pub open spec fn opened_stands(lines: Seq<Seq<char>>, o: OpenedText, n: int) -> bool {
    &&& 0 <= o.line < n
    &&& opened_name(lines[o.line]) == Some(o.name)
    &&& o.closes.len() == lines.len()
    &&& forall|j: int|
        0 <= j < lines.len() ==> (#[trigger] o.closes[j] <==> regex_matches(
            close_pattern(o.name),
            lines[j],
        ))
}

/// Every line that opens a file opens exactly one, in the order of the lines; of each line of the
/// file it is said whether it closes it.
pub proof fn law_opened_in(lines: Seq<Seq<char>>, n: int)
    requires
        0 <= n <= lines.len(),
    ensures
        forall|i: int, k: int|
            0 <= i < k < opened_in(lines, n).len() ==> (#[trigger] opened_in(lines, n)[i]).line < (
            #[trigger] opened_in(lines, n)[k]).line,
        forall|k: int|
            0 <= k < opened_in(lines, n).len() ==> opened_stands(
                lines,
                #[trigger] opened_in(lines, n)[k],
                n,
            ),
        forall|i: int|
            0 <= i < n && (#[trigger] opened_name(lines[i])) is Some ==> exists|k: int|
                0 <= k < opened_in(lines, n).len() && (#[trigger] opened_in(lines, n)[k]).line
                    == i,
    decreases n,
{
    if n > 0 {
        law_opened_in(lines, n - 1);
        let fewer = opened_in(lines, n - 1);
        let all = opened_in(lines, n);
        assert(forall|k: int| 0 <= k < fewer.len() ==> fewer[k] == #[trigger] all[k]);
        assert forall|k: int| 0 <= k < all.len() implies opened_stands(
            lines,
            #[trigger] all[k],
            n,
        ) by {
            if k < fewer.len() {
                assert(opened_stands(lines, fewer[k], n - 1));
            }
        }
        assert forall|i: int|
            0 <= i < n && (#[trigger] opened_name(lines[i])) is Some implies exists|k: int|
            0 <= k < all.len() && (#[trigger] all[k]).line == i by {
            if i < n - 1 {
                let k = choose|k: int| 0 <= k < fewer.len() && (#[trigger] fewer[k]).line == i;
                assert(all[k].line == i);
            } else {
                assert(all[all.len() - 1].line == i);
            }
        }
    }
}

/// A line makes a thread that is looked at where it binds a thread or a timer whose arguments,
/// over as many lines as they take, do not make it a daemon.
pub proof fn law_thread_on(lines: Seq<Seq<char>>, i: int, kind: Seq<char>, name: Seq<char>)
    requires
        0 <= i < lines.len(),
    ensures
        thread_on(lines, i) == Some((kind, name)) <==> {
            &&& captured(THREAD_PATTERN@, lines[i], 1) == Some(name)
            &&& captured(THREAD_PATTERN@, lines[i], 3) == Some(kind)
            &&& captured(THREAD_PATTERN@, lines[i], 4) matches Some(rest)
            &&& !regex_matches(DAEMON_PATTERN@, call_code(rest, lines, i + 1))
        },
{
}

/// Whether a thread is the one that its line, one of the first `n`, makes.
pub open spec fn thread_stands(lines: Seq<Seq<char>>, t: ThreadText, n: int) -> bool {
    &&& 0 <= t.line < n
    &&& thread_on(lines, t.line) == Some((t.kind, t.name))
    &&& t.joins.len() == lines.len()
    &&& forall|j: int|
        0 <= j < lines.len() ==> (#[trigger] t.joins[j] <==> regex_matches(
            join_pattern(t.name),
            lines[j],
        ))
}

/// Every line that makes a thread makes exactly one, in the order of the lines; of each line of
/// the file it is said whether it joins it.
pub proof fn law_threads_in(lines: Seq<Seq<char>>, n: int)
    requires
        0 <= n <= lines.len(),
    ensures
        forall|i: int, k: int|
            0 <= i < k < threads_in(lines, n).len() ==> (#[trigger] threads_in(lines, n)[i]).line
                < (#[trigger] threads_in(lines, n)[k]).line,
        forall|k: int|
            0 <= k < threads_in(lines, n).len() ==> thread_stands(
                lines,
                #[trigger] threads_in(lines, n)[k],
                n,
            ),
        forall|i: int|
            0 <= i < n && (#[trigger] thread_on(lines, i)) is Some ==> exists|k: int|
                0 <= k < threads_in(lines, n).len() && (#[trigger] threads_in(lines, n)[k]).line
                    == i,
    decreases n,
{
    if n > 0 {
        law_threads_in(lines, n - 1);
        let fewer = threads_in(lines, n - 1);
        let all = threads_in(lines, n);
        assert(forall|k: int| 0 <= k < fewer.len() ==> fewer[k] == #[trigger] all[k]);
        assert forall|k: int| 0 <= k < all.len() implies thread_stands(
            lines,
            #[trigger] all[k],
            n,
        ) by {
            if k < fewer.len() {
                assert(thread_stands(lines, fewer[k], n - 1));
            }
        }
        assert forall|i: int|
            0 <= i < n && (#[trigger] thread_on(lines, i)) is Some implies exists|k: int|
            0 <= k < all.len() && (#[trigger] all[k]).line == i by {
            if i < n - 1 {
                let k = choose|k: int| 0 <= k < fewer.len() && (#[trigger] fewer[k]).line == i;
                assert(all[k].line == i);
            } else {
                assert(all[all.len() - 1].line == i);
            }
        }
    }
}

/// The names of registries are the names that lines append to and that sound like registries:
/// every one of them, none twice, and in the order in which they first come up.
pub proof fn law_registry_names(lines: Seq<Seq<char>>, n: int)
    requires
        0 <= n <= lines.len(),
    ensures
        forall|i: int|
            0 <= i < n && (#[trigger] registry_name(lines[i])) is Some ==> registry_names(
                lines,
                n,
            ).contains(registry_name(lines[i])->0),
        forall|k: int|
            0 <= k < registry_names(lines, n).len() ==> exists|i: int|
                0 <= i < n && #[trigger] registry_name(lines[i]) == Some(
                    #[trigger] registry_names(lines, n)[k],
                ),
        registry_names(lines, n).no_duplicates(),
        n > 0 ==> registry_names(lines, n - 1).is_prefix_of(registry_names(lines, n)),
    decreases n,
{
    if n > 0 {
        law_registry_names(lines, n - 1);
        let fewer = registry_names(lines, n - 1);
        let all = registry_names(lines, n);
        assert(forall|k: int| 0 <= k < fewer.len() ==> fewer[k] == #[trigger] all[k]);
        assert(fewer =~= all.take(fewer.len() as int));
        assert forall|i: int|
            0 <= i < n && (#[trigger] registry_name(lines[i])) is Some implies all.contains(
            registry_name(lines[i])->0,
        ) by {
            let name = registry_name(lines[i])->0;
            if i < n - 1 {
                let k = choose|k: int| 0 <= k < fewer.len() && fewer[k] == name;
                assert(all[k] == name);
            } else if !fewer.contains(name) {
                assert(all[all.len() - 1] == name);
            }
        }
        assert forall|k: int| 0 <= k < all.len() implies exists|i: int|
            0 <= i < n && #[trigger] registry_name(lines[i]) == Some(#[trigger] all[k]) by {
            if k < fewer.len() {
                assert(all[k] == fewer[k]);
                let i = choose|i: int|
                    0 <= i < n - 1 && #[trigger] registry_name(lines[i]) == Some(fewer[k]);
                assert(registry_name(lines[i]) == Some(all[k]));
            } else {
                assert(registry_name(lines[n - 1]) == Some(all[k]));
            }
        }
    }
}

/// There is one registry for each name, in the same order; of each line of the file it is said
/// whether it appends to it and whether it removes from it.
pub proof fn law_registries_in(lines: Seq<Seq<char>>, k: int, j: int)
    requires
        0 <= k < registry_names(lines, lines.len() as int).len(),
        0 <= j < lines.len(),
    ensures
        registries_in(lines).len() == registry_names(lines, lines.len() as int).len(),
        ({
            let r = registries_in(lines)[k];
            &&& r.name == registry_names(lines, lines.len() as int)[k]
            &&& r.appends.len() == lines.len() == r.removes.len()
            &&& r.appends[j] <==> regex_matches(registration_pattern(r.name), lines[j])
            &&& r.removes[j] <==> regex_matches(removal_pattern(r.name), lines[j])
        }),
{
}

/// A line holds an unlimited cache where it is a `cache` decorator, or an `lru_cache` one without
/// arguments, or one whose arguments start with a named one or are none and name no `maxsize`.
/// The search for the function goes on below the decorator.
pub proof fn law_cache_on(lines: Seq<Seq<char>>, i: int)
    requires
        0 <= i < lines.len() <= usize::MAX,
    ensures
        caches_in(lines).len() == lines.len(),
        caches_in(lines)[i] == cache_on(lines, i),
        regex_matches(CACHE_PATTERN@, lines[i]) ==> (cache_on(lines, i) matches Some(m) && m.kind
            == CacheKind::Cache && m.below == i + 1),
        !regex_matches(CACHE_PATTERN@, lines[i]) ==> {
            let named = captured(LRU_CACHE_PATTERN@, lines[i], 1) is Some;
            let rest = captured(LRU_CACHE_PATTERN@, lines[i], 2);
            &&& !named ==> cache_on(lines, i) is None
            &&& named && rest is None ==> (cache_on(lines, i) matches Some(m) && m.kind
                == CacheKind::LruCache && m.below == i + 1)
            &&& named && rest is Some ==> {
                let arguments = call_top(rest->0, lines, i + 1);
                let limited = regex_matches(MAXSIZE_PATTERN@, arguments) || !regex_matches(
                    NAMED_PATTERN@,
                    arguments,
                );
                &&& limited ==> cache_on(lines, i) is None
                &&& !limited ==> (cache_on(lines, i) matches Some(m) && m.kind
                    == CacheKind::LruCache && m.below == call_below(rest->0, lines, i + 1))
            }
        },
{
    if let Some(rest) = captured(LRU_CACHE_PATTERN@, lines[i], 2) {
        assert(call_below(rest, lines, i + 1) <= lines.len());
    }
}

} // verus!
