//! Code apart from comments and from what strings hold: the arguments of a call, as far as its
//! closing bracket, and the lines of a file.

use crate::text::{joined, law_joined, str_texts, to_chars};
use vstd::prelude::*;

verus! {

/// Where a scan of a call stands: in code, in a comment, in a string that ends with its line,
/// in a string that may go over lines, or behind the closing bracket.
#[derive(Debug, Clone, Copy, PartialEq, Eq, Structural)]
pub enum Lex {
    Code,
    Comment,
    Short(char),
    Long(char),
    Closed,
}

/// How far a scan has come: the position of the next character, what that stands in, how many
/// brackets are open, the code met so far, the part of it outside these brackets, and how many
/// line breaks.
#[verifier::ext_equal]
pub struct Scan {
    pub at: int,
    pub lex: Lex,
    pub open: nat,
    pub code: Seq<char>,
    pub top: Seq<char>,
    pub breaks: nat,
}

/// Whether a character opens a bracket.
pub open spec fn opens(c: char) -> bool {
    c == '(' || c == '[' || c == '{'
}

/// Whether a character closes a bracket.
pub open spec fn closes(c: char) -> bool {
    c == ')' || c == ']' || c == '}'
}

/// Whether a quote of three characters stands at a position.
pub open spec fn triple(s: Seq<char>, at: int, quote: char) -> bool {
    at + 2 < s.len() && s[at] == quote && s[at + 1] == quote && s[at + 2] == quote
}

/// One line break where the character is one.
pub open spec fn line_break(c: char) -> nat {
    if c == '\n' {
        1
    } else {
        0
    }
}

/// What stands outside brackets after one more character of code, where `open` brackets were
/// open before it and `after` are behind it: a bracket counts with what is around it.
pub open spec fn top_after(top: Seq<char>, open: nat, after: nat, c: char) -> Seq<char> {
    if open == 0 || after == 0 {
        top.push(c)
    } else {
        top
    }
}

/// How many brackets are open behind a character of code.
pub open spec fn open_after(open: nat, c: char) -> nat {
    if opens(c) {
        open + 1
    } else if closes(c) && open > 0 {
        (open - 1) as nat
    } else {
        open
    }
}

/// The scan one step further in code. A comment is left out, and so is what a string holds;
/// the bracket that closes the call ends the scan.
pub open spec fn step_in_code(s: Seq<char>, scan: Scan) -> Scan {
    let c = s[scan.at];
    if c == '#' {
        Scan { at: scan.at + 1, lex: Lex::Comment, ..scan }
    } else if c == '"' || c == '\'' {
        let long = triple(s, scan.at, c);
        Scan {
            at: scan.at + if long {
                3int
            } else {
                1int
            },
            lex: if long {
                Lex::Long(c)
            } else {
                Lex::Short(c)
            },
            code: scan.code.push(c),
            top: top_after(scan.top, scan.open, scan.open, c),
            ..scan
        }
    } else if closes(c) && scan.open == 0 {
        Scan { at: scan.at + 1, lex: Lex::Closed, ..scan }
    } else {
        Scan {
            at: scan.at + 1,
            open: open_after(scan.open, c),
            code: scan.code.push(c),
            top: top_after(scan.top, scan.open, open_after(scan.open, c), c),
            breaks: scan.breaks + line_break(c),
            ..scan
        }
    }
}

/// The scan one step further in a string.
pub open spec fn step_in_string(s: Seq<char>, scan: Scan, quote: char, long: bool) -> Scan {
    let c = s[scan.at];
    if c == '\\' && scan.at + 1 < s.len() {
        Scan { at: scan.at + 2, breaks: scan.breaks + line_break(s[scan.at + 1]), ..scan }
    } else if long && triple(s, scan.at, quote) {
        Scan { at: scan.at + 3, lex: Lex::Code, ..scan }
    } else if !long && (c == quote || c == '\n') {
        Scan { at: scan.at + 1, lex: Lex::Code, breaks: scan.breaks + line_break(c), ..scan }
    } else {
        Scan { at: scan.at + 1, breaks: scan.breaks + line_break(c), ..scan }
    }
}

/// The scan one step further.
pub open spec fn step(s: Seq<char>, scan: Scan) -> Scan {
    let c = s[scan.at];
    match scan.lex {
        Lex::Code => step_in_code(s, scan),
        Lex::Comment => if c == '\n' {
            Scan {
                at: scan.at + 1,
                lex: Lex::Code,
                code: scan.code.push(c),
                top: top_after(scan.top, scan.open, scan.open, c),
                breaks: scan.breaks + 1,
                ..scan
            }
        } else {
            Scan { at: scan.at + 1, ..scan }
        },
        Lex::Short(quote) => step_in_string(s, scan, quote, false),
        Lex::Long(quote) => step_in_string(s, scan, quote, true),
        Lex::Closed => Scan { at: scan.at + 1, ..scan },
    }
}

/// The scan at the end of the call, or of the text where nothing closes the call.
pub open spec fn scanned(s: Seq<char>, scan: Scan) -> Scan
    decreases s.len() - scan.at,
{
    if scan.at >= s.len() || scan.lex == Lex::Closed {
        scan
    } else {
        scanned(s, step(s, scan))
    }
}

/// The lines from `j` on, each after a line break.
pub open spec fn below(lines: Seq<Seq<char>>, j: int) -> Seq<char>
    decreases lines.len() - j,
{
    if j >= lines.len() {
        seq![]
    } else {
        seq!['\n'] + lines[j] + below(lines, j + 1)
    }
}

/// The scan of a text before its first character.
pub open spec fn scan_start() -> Scan {
    Scan { at: 0, lex: Lex::Code, open: 0, code: seq![], top: seq![], breaks: 0 }
}

/// The scan of a call whose arguments start with `rest`, what follows its opening bracket on
/// its line, and may go on over the lines from `j` on.
pub open spec fn call_scan(rest: Seq<char>, lines: Seq<Seq<char>>, j: int) -> Scan {
    scanned(rest + below(lines, j), scan_start())
}

/// The code of the arguments of a call: without comments, and without what strings hold.
pub open spec fn call_code(rest: Seq<char>, lines: Seq<Seq<char>>, j: int) -> Seq<char> {
    call_scan(rest, lines, j).code
}

/// The code of the arguments of a call that stands in no bracket of theirs.
pub open spec fn call_top(rest: Seq<char>, lines: Seq<Seq<char>>, j: int) -> Seq<char> {
    call_scan(rest, lines, j).top
}

/// The first line below a call, where `j` is the line after the one that it starts on.
pub open spec fn call_below(rest: Seq<char>, lines: Seq<Seq<char>>, j: int) -> int {
    let next = j + call_scan(rest, lines, j).breaks;
    if next < lines.len() {
        next
    } else {
        lines.len() as int
    }
}

/// The arguments of a call: their code, the part of it that stands in no bracket of theirs, and
/// the first line below the call.
#[derive(Debug)]
pub struct Call {
    pub code: String,
    pub top: String,
    pub below: usize,
}

fn gather(rest: &str, lines: &[&str], from: usize) -> (r: Vec<char>)
    requires
        from <= lines@.len(),
    ensures
        r@ == rest@ + below(str_texts(lines@), from as int),
{
    let ghost all = str_texts(lines@);
    let ghost whole = rest@ + below(all, from as int);
    let mut r = to_chars(rest);
    let mut j: usize = from;
    while j < lines.len()
        invariant
            from <= j <= lines@.len(),
            all == str_texts(lines@),
            r@ + below(all, j as int) == whole,
        decreases lines@.len() - j,
    {
        let ghost before = r@;
        let mut line = to_chars(lines[j]);
        r.push('\n');
        r.append(&mut line);
        assert(r@ =~= before + seq!['\n'] + all[j as int]);
        assert(r@ + below(all, j + 1) =~= before + below(all, j as int));
        j = j + 1;
    }
    assert(r@ + below(all, j as int) =~= r@);
    r
}

fn is_triple(s: &Vec<char>, at: usize, quote: char) -> (r: bool)
    requires
        at < s@.len(),
    ensures
        r == triple(s@, at as int, quote),
{
    let left: usize = s.len() - at;
    left > 2 && s[at] == quote && s[at + 1] == quote && s[at + 2] == quote
}

/// How far a scan has come.
#[derive(Debug)]
pub(crate) struct Progress {
    pub(crate) at: usize,
    pub(crate) lex: Lex,
    pub(crate) open: u128,
    pub(crate) code: String,
    pub(crate) top: String,
    pub(crate) breaks: usize,
}

impl View for Progress {
    type V = Scan;

    closed spec fn view(&self) -> Scan {
        Scan {
            at: self.at as int,
            lex: self.lex,
            open: self.open as nat,
            code: self.code@,
            top: self.top@,
            breaks: self.breaks as nat,
        }
    }
}

impl Progress {
    /// A scan before its first character.
    pub(crate) fn new(lex: Lex, open: u128) -> (r: Self)
        ensures
            r@ == (Scan { lex, open: open as nat, ..scan_start() }),
    {
        let r = Progress {
            at: 0,
            lex,
            open,
            code: String::new(),
            top: String::new(),
            breaks: 0,
        };
        assert(r.code@ =~= seq![]);
        assert(r.top@ =~= seq![]);
        r
    }

    fn keep(&mut self, c: char, open: u128)
        ensures
            final(self)@ == (Scan {
                code: old(self)@.code.push(c),
                top: top_after(old(self)@.top, old(self)@.open, open as nat, c),
                open: open as nat,
                ..old(self)@
            }),
    {
        self.code.push(c);
        if self.open == 0 || open == 0 {
            self.top.push(c);
        }
        self.open = open;
    }

    fn skip(&mut self, c: char, ahead: usize)
        requires
            old(self)@.at + ahead <= usize::MAX,
            old(self)@.breaks < usize::MAX,
        ensures
            final(self)@ == (Scan {
                at: old(self)@.at + ahead,
                breaks: old(self)@.breaks + line_break(c),
                ..old(self)@
            }),
    {
        if c == '\n' {
            self.breaks = self.breaks + 1;
        }
        self.at = self.at + ahead;
    }

    fn in_code(&mut self, s: &Vec<char>)
        requires
            0 <= old(self)@.at < s@.len() <= usize::MAX,
            old(self)@.breaks <= old(self)@.at,
            old(self)@.open < u128::MAX,
        ensures
            final(self)@ == step_in_code(s@, old(self)@),
    {
        let c = s[self.at];
        let open: u128 = self.open;
        if c == '#' {
            self.lex = Lex::Comment;
            self.skip(c, 1);
        } else if c == '"' || c == '\'' {
            self.keep(c, open);
            if is_triple(s, self.at, c) {
                self.lex = Lex::Long(c);
                self.skip(c, 3);
            } else {
                self.lex = Lex::Short(c);
                self.skip(c, 1);
            }
        } else if c == '(' || c == '[' || c == '{' {
            self.keep(c, open + 1);
            self.skip(c, 1);
        } else if c == ')' || c == ']' || c == '}' {
            if open == 0 {
                self.lex = Lex::Closed;
            } else {
                self.keep(c, open - 1);
            }
            self.skip(c, 1);
        } else {
            self.keep(c, open);
            self.skip(c, 1);
        }
        assert(self@ =~= step_in_code(s@, old(self)@));
    }

    fn in_string(&mut self, s: &Vec<char>, quote: char, long: bool)
        requires
            0 <= old(self)@.at < s@.len() <= usize::MAX,
            old(self)@.breaks <= old(self)@.at,
        ensures
            final(self)@ == step_in_string(s@, old(self)@, quote, long),
    {
        let c = s[self.at];
        if c == '\\' && s.len() - self.at > 1 {
            self.skip(s[self.at + 1], 2);
        } else if long && is_triple(s, self.at, quote) {
            self.lex = Lex::Code;
            self.at = self.at + 3;
        } else {
            if !long && (c == quote || c == '\n') {
                self.lex = Lex::Code;
            }
            self.skip(c, 1);
        }
        assert(self@ =~= step_in_string(s@, old(self)@, quote, long));
    }

    /// Goes one step further.
    pub(crate) fn advance(&mut self, s: &Vec<char>)
        requires
            0 <= old(self)@.at < s@.len() <= usize::MAX,
            old(self)@.breaks <= old(self)@.at,
            old(self)@.open < u128::MAX,
        ensures
            final(self)@ == step(s@, old(self)@),
            old(self)@.at < final(self)@.at <= s@.len(),
            final(self)@.breaks <= final(self)@.at,
            final(self)@.open <= old(self)@.open + 1,
    {
        match self.lex {
            Lex::Code => self.in_code(s),
            Lex::Comment => {
                let c = s[self.at];
                if c == '\n' {
                    self.lex = Lex::Code;
                    let open: u128 = self.open;
                    self.keep(c, open);
                }
                self.skip(c, 1);
            },
            Lex::Short(quote) => self.in_string(s, quote, false),
            Lex::Long(quote) => self.in_string(s, quote, true),
            Lex::Closed => {
                self.at = self.at + 1;
            },
        }
        assert(self@ =~= step(s@, old(self)@));
    }
}

/// The arguments of a call, where `rest` is what follows its opening bracket on its line and
/// `from` the line after that: their code as far as the closing bracket, without comments and
/// without what strings hold; the part of it outside all brackets; and the first line below
/// the call.
pub fn read_call(rest: &str, lines: &[&str], from: usize) -> (r: Call)
    requires
        from <= lines@.len(),
    ensures
        r.code@ == call_code(rest@, str_texts(lines@), from as int),
        r.top@ == call_top(rest@, str_texts(lines@), from as int),
        r.below == call_below(rest@, str_texts(lines@), from as int),
{
    let s = gather(rest, lines, from);
    let count: usize = s.len();
    let mut scan = Progress::new(Lex::Code, 0);
    assert(scan@ =~= scan_start());
    while scan.at < s.len() && scan.lex != Lex::Closed
        invariant
            s@.len() == count,
            0 <= scan@.at <= s@.len(),
            scan@.open <= scan@.at,
            scan@.breaks <= scan@.at,
            scanned(s@, scan_start()) == scanned(s@, scan@),
        decreases s@.len() - scan@.at,
    {
        scan.advance(&s);
    }
    let room: usize = lines.len() - from;
    let below: usize = if scan.breaks < room {
        from + scan.breaks
    } else {
        lines.len()
    };
    Call { code: scan.code, top: scan.top, below }
}

// ---- lines ---------------------------------------------------------------------------------

/// The scan of a line one step further: a bracket that closes nothing is passed over.
pub open spec fn line_step(s: Seq<char>, scan: Scan) -> Scan {
    let next = step(s, scan);
    if next.lex == Lex::Closed {
        Scan { lex: Lex::Code, ..next }
    } else {
        next
    }
}

/// The scan of a line at its end.
pub open spec fn line_scanned(s: Seq<char>, scan: Scan) -> Scan
    decreases s.len() - scan.at,
{
    if scan.at >= s.len() {
        scan
    } else {
        line_scanned(s, line_step(s, scan))
    }
}

/// The scan of a line and its line break, where `lex` is what the line starts in and `open`
/// brackets are open before it.
pub open spec fn line_scan(line: Seq<char>, lex: Lex, open: nat) -> Scan {
    line_scanned(line.push('\n'), Scan { lex, open, ..scan_start() })
}

/// Where the scan of a line has come: what the next line starts in, how many brackets are open
/// before that, the code of the line, and the part of it outside brackets.
#[derive(Debug)]
pub(crate) struct LineScan {
    pub(crate) lex: Lex,
    pub(crate) open: u128,
    pub(crate) code: String,
    pub(crate) top: String,
}

/// Scans a line and its line break.
pub(crate) fn scan_line(line: &str, lex: Lex, open: u128) -> (r: LineScan)
    requires
        lex != Lex::Closed,
        open + usize::MAX < u128::MAX,
    ensures
        r.lex == line_scan(line@, lex, open as nat).lex,
        r.lex != Lex::Closed,
        r.open == line_scan(line@, lex, open as nat).open,
        r.open <= open + usize::MAX,
        r.code@ == line_scan(line@, lex, open as nat).code,
        r.top@ == line_scan(line@, lex, open as nat).top,
{
    let mut s = to_chars(line);
    s.push('\n');
    let count: usize = s.len();
    let ghost first = Scan { lex, open: open as nat, ..scan_start() };
    let mut scan = Progress::new(lex, open);
    while scan.at < s.len()
        invariant
            s@.len() == count,
            0 <= scan@.at <= s@.len(),
            scan@.lex != Lex::Closed,
            scan@.open <= open + scan@.at,
            open + usize::MAX < u128::MAX,
            scan@.breaks <= scan@.at,
            line_scanned(s@, first) == line_scanned(s@, scan@),
        decreases s@.len() - scan@.at,
    {
        let ghost before = scan@;
        scan.advance(&s);
        if scan.lex == Lex::Closed {
            scan.lex = Lex::Code;
        }
        assert(scan@ =~= line_step(s@, before));
    }
    LineScan { lex: scan.lex, open: scan.open, code: scan.code, top: scan.top }
}

// ---- what holds of calls -------------------------------------------------------------------

/// No call closes within one character of a string or a comment.
proof fn lemma_not_closed(s: Seq<char>, scan: Scan)
    requires
        0 <= scan.at,
        s.len() <= scan.at + 1,
        scan.lex != Lex::Code && scan.lex != Lex::Closed,
    ensures
        scanned(s, scan).lex != Lex::Closed,
{
    reveal_with_fuel(scanned, 3);
}

proof fn lemma_scan_ends(s: Seq<char>, t: Seq<char>, scan: Scan)
    requires
        0 <= scan.at <= s.len(),
        scanned(s, scan).lex == Lex::Closed,
    ensures
        scanned(s + t, scan) == scanned(s, scan),
    decreases s.len() - scan.at,
{
    if scan.lex != Lex::Closed {
        let at = scan.at;
        let next = step(s, scan);
        assert(at < s.len());
        assert(forall|k: int| 0 <= k < s.len() ==> (s + t)[k] == s[k]);
        if next.at <= s.len() && s.len() <= next.at + 1 && next.lex != Lex::Code && next.lex
            != Lex::Closed {
            lemma_not_closed(s, next);
        }
        let c = s[at];
        if at + 2 < s.len() {
            assert(triple(s + t, at, c) == triple(s, at, c));
        }
        assert(step(s + t, scan) =~= next);
        lemma_scan_ends(s, t, next);
    }
}

/// What follows the closing bracket of a call does not count: neither on its line nor below.
pub proof fn law_call_ends(s: Seq<char>, t: Seq<char>)
    requires
        scanned(s, scan_start()).lex == Lex::Closed,
    ensures
        scanned(s + t, scan_start()) == scanned(s, scan_start()),
{
    lemma_scan_ends(s, t, scan_start());
}

/// Whether a character of code stands for nothing but itself: it begins no string or comment
/// and is no bracket.
pub open spec fn plain(c: char) -> bool {
    &&& c != '#' && c != '"' && c != '\''
    &&& c != '(' && c != '[' && c != '{'
    &&& c != ')' && c != ']' && c != '}'
}

/// How many line breaks stand in a text.
pub open spec fn breaks_in(s: Seq<char>) -> nat
    decreases s.len(),
{
    if s.len() == 0 {
        0
    } else {
        breaks_in(s.drop_last()) + if s.last() == '\n' {
            1nat
        } else {
            0nat
        }
    }
}

/// Plain code is kept as it is, inside brackets and outside them.
pub proof fn law_plain_code(s: Seq<char>, scan: Scan, n: int)
    requires
        0 <= scan.at,
        0 <= n,
        scan.at + n <= s.len(),
        scan.lex == Lex::Code,
        forall|k: int| scan.at <= k < scan.at + n ==> plain(#[trigger] s[k]),
    ensures
        scanned(s, scan) == scanned(
            s,
            (Scan {
                at: scan.at + n,
                code: scan.code + s.subrange(scan.at, scan.at + n),
                top: if scan.open == 0 {
                    scan.top + s.subrange(scan.at, scan.at + n)
                } else {
                    scan.top
                },
                breaks: scan.breaks + breaks_in(s.subrange(scan.at, scan.at + n)),
                ..scan
            }),
        ),
    decreases n,
{
    let part = s.subrange(scan.at, scan.at + n);
    let whole = Scan {
        at: scan.at + n,
        code: scan.code + part,
        top: if scan.open == 0 {
            scan.top + part
        } else {
            scan.top
        },
        breaks: scan.breaks + breaks_in(part),
        ..scan
    };
    if n == 0 {
        assert(whole =~= scan);
    } else {
        law_plain_code(s, scan, n - 1);
        let shorter = s.subrange(scan.at, scan.at + n - 1);
        assert(part.drop_last() =~= shorter);
        let c = s[scan.at + n - 1];
        assert(plain(c));
        assert(part =~= shorter.push(c));
        let near = Scan {
            at: scan.at + n - 1,
            code: scan.code + shorter,
            top: if scan.open == 0 {
                scan.top + shorter
            } else {
                scan.top
            },
            breaks: scan.breaks + breaks_in(shorter),
            ..scan
        };
        assert(scanned(s, near) == scanned(s, step(s, near)));
        assert(step(s, near) =~= whole);
    }
}

/// A comment leaves no trace but the line break behind it.
pub proof fn law_comment(s: Seq<char>, scan: Scan, n: int)
    requires
        0 <= scan.at,
        0 <= n,
        scan.at + n + 1 < s.len(),
        scan.lex == Lex::Code,
        s[scan.at] == '#',
        forall|k: int| scan.at < k <= scan.at + n ==> #[trigger] s[k] != '\n',
        s[scan.at + n + 1] == '\n',
    ensures
        scanned(s, scan) == scanned(
            s,
            (Scan {
                at: scan.at + n + 2,
                code: scan.code.push('\n'),
                top: if scan.open == 0 {
                    scan.top.push('\n')
                } else {
                    scan.top
                },
                breaks: scan.breaks + 1,
                ..scan
            }),
        ),
{
    lemma_in_comment(s, step(s, scan), n);
}

proof fn lemma_in_comment(s: Seq<char>, scan: Scan, n: int)
    requires
        0 <= scan.at,
        0 <= n,
        scan.at + n < s.len(),
        scan.lex == Lex::Comment,
        forall|k: int| scan.at <= k < scan.at + n ==> #[trigger] s[k] != '\n',
        s[scan.at + n] == '\n',
    ensures
        scanned(s, scan) == scanned(
            s,
            (Scan {
                at: scan.at + n + 1,
                lex: Lex::Code,
                code: scan.code.push('\n'),
                top: if scan.open == 0 {
                    scan.top.push('\n')
                } else {
                    scan.top
                },
                breaks: scan.breaks + 1,
                ..scan
            }),
        ),
    decreases n,
{
    assert(scanned(s, scan) == scanned(s, step(s, scan)));
    if n > 0 {
        assert(s[scan.at] != '\n');
        lemma_in_comment(s, step(s, scan), n - 1);
    }
}

/// Of a string on one line there remains its opening quote, whatever it holds.
pub proof fn law_short_string(s: Seq<char>, scan: Scan, quote: char, n: int)
    requires
        0 <= scan.at,
        0 <= n,
        scan.at + n + 1 < s.len(),
        scan.lex == Lex::Code,
        quote == '"' || quote == '\'',
        s[scan.at] == quote,
        forall|k: int|
            scan.at < k <= scan.at + n ==> #[trigger] s[k] != quote && s[k] != '\\' && s[k]
                != '\n',
        s[scan.at + n + 1] == quote,
        n == 0 ==> scan.at + 2 >= s.len() || s[scan.at + 2] != quote,
    ensures
        scanned(s, scan) == scanned(
            s,
            (Scan {
                at: scan.at + n + 2,
                code: scan.code.push(quote),
                top: if scan.open == 0 {
                    scan.top.push(quote)
                } else {
                    scan.top
                },
                ..scan
            }),
        ),
{
    if n > 0 {
        assert(s[scan.at + 1] != quote);
    }
    assert(scanned(s, scan) == scanned(s, step(s, scan)));
    lemma_in_string(s, step(s, scan), quote, n);
}

proof fn lemma_in_string(s: Seq<char>, scan: Scan, quote: char, n: int)
    requires
        0 <= scan.at,
        0 <= n,
        scan.at + n < s.len(),
        scan.lex == Lex::Short(quote),
        quote == '"' || quote == '\'',
        forall|k: int|
            scan.at <= k < scan.at + n ==> #[trigger] s[k] != quote && s[k] != '\\' && s[k]
                != '\n',
        s[scan.at + n] == quote,
    ensures
        scanned(s, scan) == scanned(s, (Scan { at: scan.at + n + 1, lex: Lex::Code, ..scan })),
    decreases n,
{
    assert(scanned(s, scan) == scanned(s, step(s, scan)));
    if n > 0 {
        assert(s[scan.at] != quote);
        lemma_in_string(s, step(s, scan), quote, n - 1);
    }
}

/// Of a string in three quotes there remains one of them; it may go over lines.
pub proof fn law_long_string(s: Seq<char>, scan: Scan, quote: char, n: int)
    requires
        0 <= scan.at,
        0 <= n,
        scan.at + n + 5 < s.len(),
        scan.lex == Lex::Code,
        quote == '"' || quote == '\'',
        s[scan.at] == quote && s[scan.at + 1] == quote && s[scan.at + 2] == quote,
        forall|k: int|
            scan.at + 3 <= k < scan.at + 3 + n ==> #[trigger] s[k] != quote && s[k] != '\\',
        s[scan.at + 3 + n] == quote && s[scan.at + 4 + n] == quote && s[scan.at + 5 + n] == quote,
    ensures
        scanned(s, scan) == scanned(
            s,
            (Scan {
                at: scan.at + n + 6,
                code: scan.code.push(quote),
                top: if scan.open == 0 {
                    scan.top.push(quote)
                } else {
                    scan.top
                },
                breaks: scan.breaks + breaks_in(s.subrange(scan.at + 3, scan.at + 3 + n)),
                ..scan
            }),
        ),
{
    assert(scanned(s, scan) == scanned(s, step(s, scan)));
    lemma_in_long_string(s, step(s, scan), quote, n, n);
    let end = Scan {
        at: scan.at + n + 3,
        breaks: scan.breaks + breaks_in(s.subrange(scan.at + 3, scan.at + 3 + n)),
        ..step(s, scan)
    };
    assert(scanned(s, end) == scanned(s, step(s, end)));
}

proof fn lemma_in_long_string(s: Seq<char>, scan: Scan, quote: char, n: int, m: int)
    requires
        0 <= scan.at,
        0 <= m <= n,
        scan.at + n < s.len(),
        scan.lex == Lex::Long(quote),
        quote == '"' || quote == '\'',
        forall|k: int|
            scan.at <= k < scan.at + n ==> #[trigger] s[k] != quote && s[k] != '\\',
    ensures
        scanned(s, scan) == scanned(
            s,
            (Scan {
                at: scan.at + m,
                breaks: scan.breaks + breaks_in(s.subrange(scan.at, scan.at + m)),
                ..scan
            }),
        ),
    decreases m,
{
    let part = s.subrange(scan.at, scan.at + m);
    if m > 0 {
        lemma_in_long_string(s, scan, quote, n, m - 1);
        let shorter = s.subrange(scan.at, scan.at + m - 1);
        assert(part.drop_last() =~= shorter);
        let near = Scan {
            at: scan.at + m - 1,
            breaks: scan.breaks + breaks_in(shorter),
            ..scan
        };
        assert(s[scan.at + m - 1] != quote);
        assert(scanned(s, near) == scanned(s, step(s, near)));
        assert(step(s, near) =~= (Scan {
            at: scan.at + m,
            breaks: scan.breaks + breaks_in(part),
            ..scan
        }));
    } else {
        assert((Scan { at: scan.at + m, breaks: scan.breaks + breaks_in(part), ..scan }) =~= scan);
    }
}

/// In a string, a backslash takes the next character with it: a quote behind it does not end
/// the string.
pub proof fn law_escape(s: Seq<char>, scan: Scan, quote: char)
    requires
        0 <= scan.at,
        scan.at + 1 < s.len(),
        scan.lex == Lex::Short(quote) || scan.lex == Lex::Long(quote),
        s[scan.at] == '\\',
    ensures
        scanned(s, scan) == scanned(
            s,
            (Scan {
                at: scan.at + 2,
                breaks: scan.breaks + if s[scan.at + 1] == '\n' {
                    1nat
                } else {
                    0nat
                },
                ..scan
            }),
        ),
{
}

/// A string in one quote ends with its line, closed or not.
pub proof fn law_string_ends_with_its_line(s: Seq<char>, scan: Scan, quote: char)
    requires
        0 <= scan.at < s.len(),
        scan.lex == Lex::Short(quote),
        s[scan.at] == '\n',
    ensures
        scanned(s, scan) == scanned(
            s,
            (Scan { at: scan.at + 1, lex: Lex::Code, breaks: scan.breaks + 1, ..scan }),
        ),
{
}

/// A bracket of any of the three kinds opens one more level, and a closing one ends it; the
/// outermost brackets count with what is around them. A closing bracket with none open ends the
/// call.
pub proof fn law_brackets(s: Seq<char>, scan: Scan)
    requires
        0 <= scan.at < s.len(),
        scan.lex == Lex::Code,
    ensures
        s[scan.at] == '(' || s[scan.at] == '[' || s[scan.at] == '{' ==> scanned(s, scan)
            == scanned(
            s,
            (Scan {
                at: scan.at + 1,
                open: scan.open + 1,
                code: scan.code.push(s[scan.at]),
                top: if scan.open == 0 {
                    scan.top.push(s[scan.at])
                } else {
                    scan.top
                },
                ..scan
            }),
        ),
        (s[scan.at] == ')' || s[scan.at] == ']' || s[scan.at] == '}') && scan.open > 0 ==> scanned(
            s,
            scan,
        ) == scanned(
            s,
            (Scan {
                at: scan.at + 1,
                open: (scan.open - 1) as nat,
                code: scan.code.push(s[scan.at]),
                top: if scan.open == 1 {
                    scan.top.push(s[scan.at])
                } else {
                    scan.top
                },
                ..scan
            }),
        ),
        (s[scan.at] == ')' || s[scan.at] == ']' || s[scan.at] == '}') && scan.open == 0 ==> scanned(
            s,
            scan,
        ) == (Scan { at: scan.at + 1, lex: Lex::Closed, ..scan }),
{
    let c = s[scan.at];
    let next = step(s, scan);
    assert(scanned(s, scan) == scanned(s, next));
    assert(step(s, scan) == step_in_code(s, scan));
    if c == '(' || c == '[' || c == '{' {
        assert(next =~= (Scan {
            at: scan.at + 1,
            open: scan.open + 1,
            code: scan.code.push(c),
            top: if scan.open == 0 {
                scan.top.push(c)
            } else {
                scan.top
            },
            ..scan
        }));
    } else if (c == ')' || c == ']' || c == '}') && scan.open > 0 {
        assert(next =~= (Scan {
            at: scan.at + 1,
            open: (scan.open - 1) as nat,
            code: scan.code.push(c),
            top: if scan.open == 1 {
                scan.top.push(c)
            } else {
                scan.top
            },
            ..scan
        }));
    } else if c == ')' || c == ']' || c == '}' {
        assert(next =~= (Scan { at: scan.at + 1, lex: Lex::Closed, ..scan }));
    }
}

/// The lines below a line are all of them, in order, each behind a line break.
pub proof fn law_below(lines: Seq<Seq<char>>, j: int)
    requires
        0 <= j <= lines.len(),
    ensures
        j == lines.len() ==> below(lines, j) == Seq::<char>::empty(),
        j < lines.len() ==> below(lines, j) == seq!['\n'] + joined(lines.skip(j), seq!['\n']),
    decreases lines.len() - j,
{
    if j < lines.len() {
        law_below(lines, j + 1);
        let rest = lines.skip(j + 1);
        assert(lines.skip(j) =~= seq![lines[j]] + rest);
        law_joined(lines[j], rest, seq!['\n']);
        if j + 1 == lines.len() {
            assert(lines.skip(j) =~= seq![lines[j]]);
            assert(seq!['\n'] + lines[j] + below(lines, j + 1) =~= seq!['\n'] + lines[j]);
        } else {
            assert(below(lines, j) =~= seq!['\n'] + (lines[j] + seq!['\n'] + joined(
                rest,
                seq!['\n'],
            )));
        }
    }
}

/// A call whose plain arguments are closed on its own line has these arguments, and the next
/// line is the first below it, whatever stands there.
pub proof fn law_call_on_one_line(
    arguments: Seq<char>,
    behind: Seq<char>,
    lines: Seq<Seq<char>>,
    j: int,
)
    requires
        0 <= j <= lines.len(),
        forall|k: int| 0 <= k < arguments.len() ==> plain(#[trigger] arguments[k]),
        forall|k: int| 0 <= k < arguments.len() ==> #[trigger] arguments[k] != '\n',
    ensures
        call_code(arguments + seq![')'] + behind, lines, j) == arguments,
        call_top(arguments + seq![')'] + behind, lines, j) == arguments,
        call_below(arguments + seq![')'] + behind, lines, j) == j,
{
    let rest = arguments + seq![')'] + behind;
    let s = rest + below(lines, j);
    let n = arguments.len() as int;
    assert forall|k: int| 0 <= k < n implies plain(#[trigger] s[k]) by {
        assert(s[k] == arguments[k]);
    }
    law_plain_code(s, scan_start(), n);
    assert(s.subrange(0, n) =~= arguments);
    lemma_no_breaks(arguments);
    let scan = Scan {
        at: n,
        code: scan_start().code + arguments,
        top: scan_start().top + arguments,
        breaks: 0,
        ..scan_start()
    };
    assert(s[n] == ')');
    law_brackets(s, scan);
    assert(scan.code =~= arguments);
    assert(scan.top =~= arguments);
}

proof fn lemma_no_breaks(s: Seq<char>)
    requires
        forall|k: int| 0 <= k < s.len() ==> #[trigger] s[k] != '\n',
    ensures
        breaks_in(s) == 0,
    decreases s.len(),
{
    if s.len() > 0 {
        lemma_no_breaks(s.drop_last());
    }
}

/// A call that goes over lines ends on the line as many below its own as there are line breaks
/// before its closing bracket; one that nothing closes ends with the file.
pub proof fn law_call_below(rest: Seq<char>, lines: Seq<Seq<char>>, j: int)
    requires
        0 <= j <= lines.len(),
    ensures
        j <= call_below(rest, lines, j) <= lines.len(),
        j + call_scan(rest, lines, j).breaks <= lines.len() ==> call_below(rest, lines, j) == j
            + call_scan(rest, lines, j).breaks,
        j + call_scan(rest, lines, j).breaks > lines.len() ==> call_below(rest, lines, j)
            == lines.len(),
{
}

/// The scan of a line goes as the scan of a call does as long as no bracket is closed that was
/// not opened.
pub proof fn law_line_scanned(s: Seq<char>, scan: Scan)
    requires
        0 <= scan.at,
        scan.lex != Lex::Closed,
    ensures
        scanned(s, scan).lex != Lex::Closed ==> line_scanned(s, scan) == scanned(s, scan),
    decreases s.len() - scan.at,
{
    if scan.at < s.len() {
        assert(scanned(s, scan) == scanned(s, step(s, scan)));
        if step(s, scan).lex != Lex::Closed {
            law_line_scanned(s, step(s, scan));
        }
    }
}

/// In a line, a closing bracket with none open is passed over.
pub proof fn law_line_passes_over(s: Seq<char>, scan: Scan)
    requires
        0 <= scan.at < s.len(),
        scan.lex == Lex::Code,
        scan.open == 0,
        s[scan.at] == ')' || s[scan.at] == ']' || s[scan.at] == '}',
    ensures
        line_scanned(s, scan) == line_scanned(s, (Scan { at: scan.at + 1, ..scan })),
{
    assert(line_step(s, scan) =~= (Scan { at: scan.at + 1, ..scan }));
}

/// A line of plain code is its own code, followed by its line break; what was open before it
/// still is behind it.
pub proof fn law_plain_line(line: Seq<char>, open: nat)
    requires
        forall|k: int| 0 <= k < line.len() ==> plain(#[trigger] line[k]),
    ensures
        line_scan(line, Lex::Code, open).lex == Lex::Code,
        line_scan(line, Lex::Code, open).open == open,
        line_scan(line, Lex::Code, open).code == line.push('\n'),
        open == 0 ==> line_scan(line, Lex::Code, open).top == line.push('\n'),
        open > 0 ==> line_scan(line, Lex::Code, open).top == Seq::<char>::empty(),
{
    let s = line.push('\n');
    let scan = Scan { lex: Lex::Code, open, ..scan_start() };
    assert forall|k: int| 0 <= k < s.len() implies plain(#[trigger] s[k]) by {
        if k < line.len() {
            assert(s[k] == line[k]);
        }
    }
    law_plain_code(s, scan, s.len() as int);
    assert(s.subrange(0, s.len() as int) =~= s);
    assert(scan.code + s =~= s);
    assert(scan.top + s =~= s);
    law_line_scanned(s, scan);
}

} // verus!
