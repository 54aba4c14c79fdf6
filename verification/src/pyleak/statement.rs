//! Which lines begin a statement, to what they belong, and which of them bind a name of the
//! module.

use crate::pyleak::call::{law_plain_line, line_scan, plain, scan_line, Lex, Scan};
use crate::pyleak::pattern::{match_lines, matching, regex_accepts, regex_matches};
use crate::pyleak::scanner::{blank_or_comment, is_blank_or_comment, CLASS_PATTERN, DEF_PATTERN};
use crate::text::{str_texts, to_chars, white_lead, white_lead_bytes};
use vstd::prelude::*;
use vstd::utf8::encode_utf8;

verus! {

/// What a line opens.
#[derive(Debug, Clone, Copy, PartialEq, Eq, Structural)]
pub enum Opens {
    Function,
    Class,
}

/// A line of a file: whether a statement begins on it, how many bytes of white space it starts
/// with, what it opens, its code without comments and without what strings hold, and the part
/// of this code outside brackets.
#[derive(Debug)]
pub struct Statement {
    pub fresh: bool,
    pub indent: usize,
    pub opens: Option<Opens>,
    pub code: String,
    pub top: String,
}

/// What a line says.
#[verifier::ext_equal]
pub struct StatementText {
    pub fresh: bool,
    pub indent: int,
    pub opens: Option<Opens>,
    pub code: Seq<char>,
    pub top: Seq<char>,
}

impl View for Statement {
    type V = StatementText;

    open spec fn view(&self) -> StatementText {
        StatementText {
            fresh: self.fresh,
            indent: self.indent as int,
            opens: self.opens,
            code: self.code@,
            top: self.top@,
        }
    }
}

/// What lines say.
pub open spec fn statement_texts(s: Seq<Statement>) -> Seq<StatementText> {
    Seq::new(s.len(), |i: int| s[i]@)
}

// ---- where statements begin ----------------------------------------------------------------

/// What a line starts in, how many brackets are open before it, and whether a backslash joins
/// it to the line before.
pub struct LineStart {
    pub lex: Lex,
    pub open: nat,
    pub joined: bool,
}

/// Whether the code of a line ends in a backslash.
pub open spec fn ends_joined(code: Seq<char>) -> bool {
    code.len() >= 2 && code[code.len() - 2] == '\\' && code.last() == '\n'
}

/// The scan of line `j`.
pub open spec fn scan_at(lines: Seq<Seq<char>>, j: int) -> Scan
    decreases j, 1nat,
{
    let start = start_of(lines, j);
    line_scan(lines[j], start.lex, start.open)
}

/// How line `j` starts.
pub open spec fn start_of(lines: Seq<Seq<char>>, j: int) -> LineStart
    decreases j, 0nat,
{
    if j <= 0 {
        LineStart { lex: Lex::Code, open: 0, joined: false }
    } else {
        let before = scan_at(lines, j - 1);
        LineStart { lex: before.lex, open: before.open, joined: ends_joined(before.code) }
    }
}

/// Whether a statement begins on line `j`: it holds code, and stands in no bracket, string or
/// statement of an earlier line.
pub open spec fn begins_statement(lines: Seq<Seq<char>>, j: int) -> bool {
    let start = start_of(lines, j);
    start.lex == Lex::Code && start.open == 0 && !start.joined && !blank_or_comment(lines[j])
}

/// What a line opens.
pub open spec fn opened_by(line: Seq<char>) -> Option<Opens> {
    if regex_matches(DEF_PATTERN@, line) {
        Some(Opens::Function)
    } else if regex_matches(CLASS_PATTERN@, line) {
        Some(Opens::Class)
    } else {
        None
    }
}

/// The lines of a file.
pub open spec fn statements_in(lines: Seq<Seq<char>>) -> Seq<StatementText> {
    Seq::new(
        lines.len(),
        |j: int|
            StatementText {
                fresh: begins_statement(lines, j),
                indent: encode_utf8(white_lead(lines[j])).len() as int,
                opens: opened_by(lines[j]),
                code: scan_at(lines, j).code,
                top: scan_at(lines, j).top,
            },
    )
}

fn is_joined(code: &str) -> (r: bool)
    ensures
        r == ends_joined(code@),
{
    let text = to_chars(code);
    let n: usize = text.len();
    n >= 2 && text[n - 2] == '\\' && text[n - 1] == '\n'
}

/// The lines of a file. `None` if a pattern is not one that compiles.
pub fn find_statements(lines: &[&str]) -> (r: Option<Vec<Statement>>)
    ensures
        r is Some <==> regex_accepts(DEF_PATTERN@) && regex_accepts(CLASS_PATTERN@),
        r matches Some(v) ==> statement_texts(v@) == statements_in(str_texts(lines@)),
{
    let (functions, classes) = match (
        match_lines(DEF_PATTERN, lines),
        match_lines(CLASS_PATTERN, lines),
    ) {
        (Some(functions), Some(classes)) => (functions, classes),
        _ => {
            return None;
        },
    };
    let ghost all = str_texts(lines@);
    let count: usize = lines.len();
    let mut r: Vec<Statement> = Vec::new();
    let mut lex = Lex::Code;
    let mut open: u128 = 0;
    let mut joined = false;
    let mut j: usize = 0;
    while j < lines.len()
        invariant
            j <= lines@.len() == count,
            r@.len() == j,
            all == str_texts(lines@),
            functions@ == matching(DEF_PATTERN@, all),
            classes@ == matching(CLASS_PATTERN@, all),
            lex == start_of(all, j as int).lex,
            lex != Lex::Closed,
            open == start_of(all, j as int).open,
            open <= j * u64::MAX,
            joined == start_of(all, j as int).joined,
            forall|k: int| 0 <= k < j ==> (#[trigger] r@[k])@ == statements_in(all)[k],
        decreases lines@.len() - j,
    {
        assert(all[j as int] == lines@[j as int]@);
        let scan = scan_line(lines[j], lex, open);
        let opens = if functions[j] {
            Some(Opens::Function)
        } else if classes[j] {
            Some(Opens::Class)
        } else {
            None
        };
        let fresh = lex == Lex::Code && open == 0 && !joined && !is_blank_or_comment(lines[j]);
        lex = scan.lex;
        open = scan.open;
        joined = is_joined(&scan.code);
        let statement = Statement {
            fresh,
            indent: white_lead_bytes(lines[j]),
            opens,
            code: scan.code,
            top: scan.top,
        };
        assert(statement@ =~= statements_in(all)[j as int]);
        r.push(statement);
        j = j + 1;
    }
    assert(statement_texts(r@) =~= statements_in(all));
    Some(r)
}

/// The code of the lines outside brackets.
pub open spec fn tops(ss: Seq<StatementText>) -> Seq<Seq<char>> {
    Seq::new(ss.len(), |i: int| ss[i].top)
}

/// The code of the lines.
pub open spec fn codes(ss: Seq<StatementText>) -> Seq<Seq<char>> {
    Seq::new(ss.len(), |i: int| ss[i].code)
}

/// The code of the lines outside brackets, and their code.
pub(crate) fn code_slices<'a>(ss: &'a Vec<Statement>) -> (r: (Vec<&'a str>, Vec<&'a str>))
    ensures
        str_texts(r.0@) == tops(statement_texts(ss@)),
        str_texts(r.1@) == codes(statement_texts(ss@)),
{
    let mut outside: Vec<&'a str> = Vec::new();
    let mut whole: Vec<&'a str> = Vec::new();
    let mut i: usize = 0;
    while i < ss.len()
        invariant
            i <= ss@.len(),
            outside@.len() == i,
            whole@.len() == i,
            forall|k: int| 0 <= k < i ==> (#[trigger] outside@[k])@ == ss@[k]@.top,
            forall|k: int| 0 <= k < i ==> (#[trigger] whole@[k])@ == ss@[k]@.code,
        decreases ss@.len() - i,
    {
        outside.push(ss[i].top.as_str());
        whole.push(ss[i].code.as_str());
        i = i + 1;
    }
    assert(str_texts(outside@) =~= tops(statement_texts(ss@)));
    assert(str_texts(whole@) =~= codes(statement_texts(ss@)));
    (outside, whole)
}

// ---- what they belong to -------------------------------------------------------------------

/// The line that opens the function or class to which a statement of the given indentation
/// belongs, where its first `k` lines are above the statement: the nearest one reached by going
/// up from less indented statement to less indented statement. `None` at module level.
pub open spec fn owner_above(ss: Seq<StatementText>, k: int, indent: int) -> Option<int>
    decreases k,
{
    if k <= 0 {
        None
    } else if !ss[k - 1].fresh || ss[k - 1].indent >= indent {
        owner_above(ss, k - 1, indent)
    } else if ss[k - 1].opens is Some {
        Some(k - 1)
    } else {
        owner_above(ss, k - 1, ss[k - 1].indent)
    }
}

/// The line that opens the function or class to which line `j` belongs, if any.
pub open spec fn owner(ss: Seq<StatementText>, j: int) -> Option<int> {
    owner_above(ss, j, ss[j].indent)
}

/// Whether what line `j` binds is a name of the module: the line stands at module level, or in
/// a function of which a statement is marked as declaring the name global.
pub open spec fn binds_in_module(ss: Seq<StatementText>, globals: Seq<bool>, j: int) -> bool {
    match owner(ss, j) {
        None => true,
        Some(h) => ss[h].opens == Some(Opens::Function) && exists|k: int|
            0 <= k < ss.len() && #[trigger] declares(ss, globals, h, k),
    }
}

/// Whether line `k` declares the name global for the function that line `h` opens.
pub open spec fn declares(ss: Seq<StatementText>, globals: Seq<bool>, h: int, k: int) -> bool {
    ss[k].fresh && globals[k] && owner(ss, k) == Some(h)
}

/// Whether line `j` binds a name of the module, where `binds` marks the lines that read as
/// assignments to it and `globals` those that declare it global: a statement begins on the
/// line, and it opens no function or class.
pub open spec fn rebinds(
    ss: Seq<StatementText>,
    binds: Seq<bool>,
    globals: Seq<bool>,
    j: int,
) -> bool {
    ss[j].fresh && ss[j].opens is None && binds[j] && binds_in_module(ss, globals, j)
}

/// For each line, whether it binds a name of the module.
pub open spec fn rebindings(
    ss: Seq<StatementText>,
    binds: Seq<bool>,
    globals: Seq<bool>,
) -> Seq<bool> {
    Seq::new(ss.len(), |j: int| rebinds(ss, binds, globals, j))
}

fn find_owner(ss: &Vec<Statement>, j: usize) -> (r: Option<usize>)
    requires
        j < ss@.len(),
    ensures
        (match r {
            Some(h) => Some(h as int),
            None => None,
        }) == owner(statement_texts(ss@), j as int),
        r matches Some(h) ==> h < ss@.len(),
{
    let ghost all = statement_texts(ss@);
    assert(all[j as int] == ss@[j as int]@);
    let mut indent: usize = ss[j].indent;
    let mut k: usize = j;
    while k > 0
        invariant
            k <= j < ss@.len(),
            all == statement_texts(ss@),
            owner(all, j as int) == owner_above(all, k as int, indent as int),
        decreases k,
    {
        k = k - 1;
        assert(all[k as int] == ss@[k as int]@);
        if ss[k].fresh && ss[k].indent < indent {
            if ss[k].opens.is_some() {
                return Some(k);
            }
            indent = ss[k].indent;
        }
    }
    None
}

fn is_in_module(ss: &Vec<Statement>, globals: &Vec<bool>, j: usize) -> (r: bool)
    requires
        j < ss@.len(),
        globals@.len() == ss@.len(),
    ensures
        r == binds_in_module(statement_texts(ss@), globals@, j as int),
{
    let ghost all = statement_texts(ss@);
    let h = match find_owner(ss, j) {
        None => {
            return true;
        },
        Some(h) => h,
    };
    assert(all[h as int] == ss@[h as int]@);
    match ss[h].opens {
        Some(Opens::Function) => {},
        _ => {
            return false;
        },
    }
    let mut k: usize = 0;
    while k < ss.len()
        invariant
            k <= ss@.len() == globals@.len(),
            j < ss@.len(),
            h < ss@.len(),
            all == statement_texts(ss@),
            owner(all, j as int) == Some(h as int),
            all[h as int].opens == Some(Opens::Function),
            forall|m: int| 0 <= m < k ==> !#[trigger] declares(all, globals@, h as int, m),
        decreases ss@.len() - k,
    {
        assert(all[k as int] == ss@[k as int]@);
        if ss[k].fresh && globals[k] {
            if let Some(o) = find_owner(ss, k) {
                if o == h {
                    assert(declares(all, globals@, h as int, k as int));
                    return true;
                }
            }
        }
        k = k + 1;
    }
    false
}

/// For each line, whether it binds a name of the module, where `binds` marks the lines that
/// read as assignments to it and `globals` those that declare it global.
pub fn find_rebindings(ss: &Vec<Statement>, binds: &Vec<bool>, globals: &Vec<bool>) -> (r: Vec<
    bool,
>)
    requires
        binds@.len() == ss@.len(),
        globals@.len() == ss@.len(),
    ensures
        r@ == rebindings(statement_texts(ss@), binds@, globals@),
{
    let ghost all = statement_texts(ss@);
    let mut r: Vec<bool> = Vec::new();
    let mut j: usize = 0;
    while j < ss.len()
        invariant
            j <= ss@.len() == binds@.len(),
            globals@.len() == ss@.len(),
            r@.len() == j,
            all == statement_texts(ss@),
            forall|k: int| 0 <= k < j ==> #[trigger] r@[k] == rebinds(all, binds@, globals@, k),
        decreases ss@.len() - j,
    {
        assert(all[j as int] == ss@[j as int]@);
        let found = ss[j].fresh && ss[j].opens.is_none() && binds[j] && is_in_module(
            ss,
            globals,
            j,
        );
        r.push(found);
        j = j + 1;
    }
    assert(r@ =~= rebindings(all, binds@, globals@));
    r
}

/// The owner of a line is a statement above it that opens a function or a class and is less
/// indented.
pub proof fn law_owner(ss: Seq<StatementText>, j: int)
    requires
        0 <= j < ss.len(),
    ensures
        owner(ss, j) matches Some(h) ==> {
            &&& 0 <= h < j
            &&& ss[h].fresh
            &&& ss[h].opens is Some
            &&& ss[h].indent < ss[j].indent
        },
{
    lemma_owner_above(ss, j, ss[j].indent);
}

proof fn lemma_owner_above(ss: Seq<StatementText>, k: int, indent: int)
    requires
        0 <= k <= ss.len(),
    ensures
        owner_above(ss, k, indent) matches Some(h) ==> {
            &&& 0 <= h < k
            &&& ss[h].fresh
            &&& ss[h].opens is Some
            &&& ss[h].indent < indent
        },
    decreases k,
{
    if k > 0 {
        lemma_owner_above(ss, k - 1, indent);
        lemma_owner_above(ss, k - 1, ss[k - 1].indent);
    }
}

/// A line that stands in a bracket which an earlier line opened binds nothing, whatever it reads
/// like: an argument or a parameter of its own line is no assignment.
pub proof fn law_no_binding_in_brackets(
    lines: Seq<Seq<char>>,
    binds: Seq<bool>,
    globals: Seq<bool>,
    j: int,
)
    requires
        0 <= j < lines.len(),
        start_of(lines, j).open > 0,
    ensures
        !rebindings(statements_in(lines), binds, globals)[j],
{
}

/// What a function binds without declaring it global, and what a class binds, is no name of the
/// module.
pub proof fn law_no_local_binding(
    ss: Seq<StatementText>,
    binds: Seq<bool>,
    globals: Seq<bool>,
    j: int,
)
    requires
        0 <= j < ss.len(),
        owner(ss, j) matches Some(h) && (ss[h].opens == Some(Opens::Class) || forall|k: int|
            0 <= k < ss.len() ==> !#[trigger] declares(ss, globals, h, k)),
    ensures
        !rebindings(ss, binds, globals)[j],
{
}

/// Whether line `h` opens the function or class that a line at `j` of the given indentation
/// stands in: it is less indented than that line and than every statement between the two.
pub open spec fn encloses(ss: Seq<StatementText>, h: int, j: int, indent: int) -> bool {
    &&& ss[h].fresh
    &&& ss[h].opens is Some
    &&& ss[h].indent < indent
    &&& forall|m: int| h < m < j && (#[trigger] ss[m]).fresh ==> ss[h].indent < ss[m].indent
}

/// The owner of a line is the nearest function or class around it: of the lines above that open
/// one and are less indented than the line and than every statement between, the last. There is
/// none just where no line does.
pub proof fn law_nearest_owner(ss: Seq<StatementText>, j: int)
    requires
        0 <= j < ss.len(),
    ensures
        match owner(ss, j) {
            Some(h) => {
                &&& 0 <= h < j
                &&& encloses(ss, h, j, ss[j].indent)
                &&& forall|m: int| h < m < j ==> !#[trigger] encloses(ss, m, j, ss[j].indent)
            },
            None => forall|m: int| 0 <= m < j ==> !#[trigger] encloses(ss, m, j, ss[j].indent),
        },
{
    lemma_nearest_owner(ss, j, j, ss[j].indent, ss[j].indent);
}

proof fn lemma_nearest_owner(ss: Seq<StatementText>, k: int, j: int, least: int, indent: int)
    requires
        0 <= k <= j <= ss.len(),
        least <= indent,
        forall|m: int| k <= m < j && (#[trigger] ss[m]).fresh ==> least <= ss[m].indent,
        forall|m: int| k <= m < j ==> !#[trigger] encloses(ss, m, j, indent),
        least < indent ==> exists|m: int|
            k <= m < j && (#[trigger] ss[m]).fresh && ss[m].indent == least,
    ensures
        match owner_above(ss, k, least) {
            Some(h) => {
                &&& 0 <= h < j
                &&& encloses(ss, h, j, indent)
                &&& forall|m: int| h < m < j ==> !#[trigger] encloses(ss, m, j, indent)
            },
            None => forall|m: int| 0 <= m < j ==> !#[trigger] encloses(ss, m, j, indent),
        },
    decreases k,
{
    if k > 0 {
        let h = k - 1;
        if !ss[h].fresh || ss[h].indent >= least {
            if least < indent {
                let m = choose|m: int|
                    k <= m < j && (#[trigger] ss[m]).fresh && ss[m].indent == least;
                assert(ss[m].fresh && h < m < j);
            }
            assert(!encloses(ss, h, j, indent));
            lemma_nearest_owner(ss, h, j, least, indent);
        } else if ss[h].opens is Some {
            assert(encloses(ss, h, j, indent));
        } else {
            assert(!encloses(ss, h, j, indent));
            assert(ss[h].fresh && ss[h].indent == ss[h].indent);
            lemma_nearest_owner(ss, h, j, ss[h].indent, indent);
        }
    }
}

/// The first line starts in code, with no bracket open. A line below one of plain code starts
/// as that one did, joined to it just where it ends in a backslash.
pub proof fn law_start_of(lines: Seq<Seq<char>>, j: int)
    requires
        0 <= j < lines.len(),
        start_of(lines, j).lex == Lex::Code,
        forall|k: int| 0 <= k < lines[j].len() ==> plain(#[trigger] lines[j][k]),
    ensures
        start_of(lines, 0).lex == Lex::Code,
        start_of(lines, 0).open == 0,
        !start_of(lines, 0).joined,
        start_of(lines, j + 1).lex == Lex::Code,
        start_of(lines, j + 1).open == start_of(lines, j).open,
        start_of(lines, j + 1).joined <==> lines[j].len() > 0 && lines[j].last() == '\\',
{
    law_plain_line(lines[j], start_of(lines, j).open);
    let code = scan_at(lines, j).code;
    assert(start_of(lines, j + 1).joined == ends_joined(code));
    assert(code == lines[j].push('\n'));
}

/// Each line is carried on from the one above: it starts in what that one ends in, with the
/// brackets that are open there.
pub proof fn law_lines_carry_on(lines: Seq<Seq<char>>, j: int)
    requires
        0 <= j < lines.len(),
    ensures
        ({
            let scan = line_scan(lines[j], start_of(lines, j).lex, start_of(lines, j).open);
            &&& start_of(lines, j + 1).lex == scan.lex
            &&& start_of(lines, j + 1).open == scan.open
            &&& statements_in(lines)[j].code == scan.code
            &&& statements_in(lines)[j].top == scan.top
        }),
{
}

/// A statement begins on a line that holds code and stands in no bracket, no string and no
/// statement of an earlier line; and on no other.
pub proof fn law_fresh(lines: Seq<Seq<char>>, j: int)
    requires
        0 <= j < lines.len(),
    ensures
        statements_in(lines).len() == lines.len(),
        statements_in(lines)[j].fresh <==> {
            &&& start_of(lines, j).lex == Lex::Code
            &&& start_of(lines, j).open == 0
            &&& !start_of(lines, j).joined
            &&& !blank_or_comment(lines[j])
        },
        statements_in(lines)[j].indent == encode_utf8(white_lead(lines[j])).len(),
        statements_in(lines)[j].opens == Some(Opens::Function) <==> regex_matches(
            DEF_PATTERN@,
            lines[j],
        ),
        statements_in(lines)[j].opens == Some(Opens::Class) <==> regex_matches(
            CLASS_PATTERN@,
            lines[j],
        ) && !regex_matches(DEF_PATTERN@, lines[j]),
{
}

} // verus!
