//! Text primitives: what each string operation of the library means on the sequence
//! of characters, and the functions that carry it out.

use vstd::prelude::*;
use vstd::utf8::encode_utf8;

verus! {

/// `String::push`: the given character is appended to the end of the string.
pub assume_specification[ String::push ](s: &mut String, c: char)
    ensures
        final(s)@ == old(s)@.push(c),
;

/// The texts of a sequence of owned strings.
pub open spec fn texts(strings: Seq<String>) -> Seq<Seq<char>> {
    Seq::new(strings.len(), |i: int| strings[i]@)
}

/// The texts of a sequence of string slices.
pub open spec fn str_texts(strings: Seq<&str>) -> Seq<Seq<char>> {
    Seq::new(strings.len(), |i: int| strings[i]@)
}

/// The text of an optional string.
pub open spec fn opt_text(s: Option<String>) -> Option<Seq<char>> {
    match s {
        Some(s) => Some(s@),
        None => None,
    }
}

/// The text of an optional string slice.
pub open spec fn opt_str_text(s: Option<&str>) -> Option<Seq<char>> {
    match s {
        Some(s) => Some(s@),
        None => None,
    }
}

/// A copy of an optional string.
pub fn copy_opt(s: &Option<String>) -> (r: Option<String>)
    ensures
        opt_text(r) == opt_text(*s),
{
    match s {
        Some(t) => Some(t.clone()),
        None => None,
    }
}

/// Whether two optional strings hold the same text, or are both absent.
pub fn same_opt(a: &Option<String>, b: &Option<String>) -> (r: bool)
    ensures
        r == (opt_text(*a) == opt_text(*b)),
{
    match (a, b) {
        (Some(x), Some(y)) => *x == *y,
        (None, None) => true,
        _ => false,
    }
}

/// The characters of a string, in order.
pub fn to_chars(s: &str) -> (v: Vec<char>)
    ensures
        v@ == s@,
{
    let mut v: Vec<char> = Vec::new();
    for c in it: s.chars()
        invariant
            v@.len() == it.index(),
            it.seq() == s@,
            forall|i: int| 0 <= i < v@.len() ==> v@[i] == it.seq()[i],
    {
        v.push(c);
    }
    v
}

/// The string made of the characters `from..to` of `chars`.
pub fn slice_text(chars: &Vec<char>, from: usize, to: usize) -> (s: String)
    requires
        from <= to <= chars@.len(),
    ensures
        s@ == chars@.subrange(from as int, to as int),
{
    let mut s = String::new();
    let mut i: usize = from;
    while i < to
        invariant
            from <= i <= to <= chars@.len(),
            s@ == chars@.subrange(from as int, i as int),
        decreases to - i,
    {
        s.push(chars[i]);
        i = i + 1;
        assert(s@ =~= chars@.subrange(from as int, i as int));
    }
    s
}

// ---- prefixes, suffixes, substrings --------------------------------------------------------

/// Whether `part` stands in `s` at position `at`.
pub open spec fn stands_at(s: Seq<char>, part: Seq<char>, at: int) -> bool {
    &&& 0 <= at
    &&& at + part.len() <= s.len()
    &&& s.subrange(at, at + part.len()) == part
}

/// Whether `part` stands somewhere in `s`.
pub open spec fn occurs(s: Seq<char>, part: Seq<char>) -> bool {
    exists|at: int| stands_at(s, part, at)
}

/// What stands in one of two texts stands in both together.
pub proof fn law_occurs_in_both(a: Seq<char>, b: Seq<char>, part: Seq<char>)
    ensures
        occurs(a, part) ==> occurs(a + b, part),
        occurs(b, part) ==> occurs(a + b, part),
{
    if occurs(a, part) {
        let at = choose|at: int| stands_at(a, part, at);
        assert((a + b).subrange(at, at + part.len()) =~= part);
        assert(stands_at(a + b, part, at));
    }
    if occurs(b, part) {
        let at = choose|at: int| stands_at(b, part, at);
        assert((a + b).subrange(a.len() + at, a.len() + at + part.len()) =~= b.subrange(
            at,
            at + part.len(),
        ));
        assert(stands_at(a + b, part, a.len() + at));
    }
}

/// Whether `part` stands in `s` at position `at`.
pub fn has_at(s: &Vec<char>, part: &Vec<char>, at: usize) -> (r: bool)
    ensures
        r == stands_at(s@, part@, at as int),
{
    if at > s.len() || part.len() > s.len() - at {
        return false;
    }
    let mut i: usize = 0;
    while i < part.len()
        invariant
            i <= part@.len(),
            at + part@.len() <= s.len(),
            forall|k: int| 0 <= k < i ==> s@[at + k] == part@[k],
        decreases part@.len() - i,
    {
        if s[at + i] != part[i] {
            assert(s@.subrange(at as int, at + part@.len())[i as int] == s@[at + i]);
            return false;
        }
        i = i + 1;
    }
    assert(s@.subrange(at as int, at + part@.len()) =~= part@);
    true
}

/// Whether `s` starts with `prefix`.
pub fn starts_with(s: &str, prefix: &str) -> (r: bool)
    ensures
        r == stands_at(s@, prefix@, 0),
{
    has_at(&to_chars(s), &to_chars(prefix), 0)
}

/// Whether `s` ends with `suffix`.
pub fn ends_with(s: &str, suffix: &str) -> (r: bool)
    ensures
        r == stands_at(s@, suffix@, s@.len() - suffix@.len()),
{
    let text = to_chars(s);
    let part = to_chars(suffix);
    part.len() <= text.len() && has_at(&text, &part, text.len() - part.len())
}

/// Whether `part` stands somewhere in `s`.
pub fn contains(s: &str, part: &str) -> (r: bool)
    ensures
        r == occurs(s@, part@),
{
    let text = to_chars(s);
    let wanted = to_chars(part);
    let mut at: usize = 0;
    while at < text.len()
        invariant
            at <= text@.len(),
            text@ == s@,
            wanted@ == part@,
            forall|k: int| 0 <= k < at ==> !stands_at(s@, part@, k),
        decreases text@.len() - at,
    {
        if has_at(&text, &wanted, at) {
            return true;
        }
        at = at + 1;
    }
    if has_at(&text, &wanted, at) {
        return true;
    }
    assert forall|k: int| !stands_at(s@, part@, k) by {}
    false
}

/// Whether the character `c` is among those of `s`.
pub fn contains_char(s: &str, c: char) -> (r: bool)
    ensures
        r == s@.contains(c),
{
    let text = to_chars(s);
    let mut i: usize = 0;
    while i < text.len()
        invariant
            i <= text@.len(),
            text@ == s@,
            forall|k: int| 0 <= k < i ==> s@[k] != c,
        decreases text@.len() - i,
    {
        if text[i] == c {
            return true;
        }
        i = i + 1;
    }
    false
}

/// Whether two strings hold the same text.
pub fn same(a: &str, b: &str) -> (r: bool)
    ensures
        r == (a@ == b@),
{
    let x = to_chars(a);
    let y = to_chars(b);
    let r = x.len() == y.len() && has_at(&x, &y, 0);
    assert(x@.len() == y@.len() ==> x@.subrange(0, y@.len() as int) =~= x@);
    r
}

/// Whether `s` starts with the character `c`.
pub open spec fn begins(s: Seq<char>, c: char) -> bool {
    s.len() > 0 && s[0] == c
}

/// Whether `s` starts with the character `c`.
pub fn begins_with(s: &str, c: char) -> (r: bool)
    ensures
        r == begins(s@, c),
{
    let text = to_chars(s);
    text.len() > 0 && text[0] == c
}

/// The part of `s` before the first `c`, or all of it where there is none.
pub open spec fn before(s: Seq<char>, c: char) -> Seq<char>
    decreases s.len(),
{
    if s.len() == 0 || s[0] == c {
        seq![]
    } else {
        seq![s[0]] + before(s.drop_first(), c)
    }
}

/// What `before` is, told by the position of the first `c`.
proof fn lemma_before(s: Seq<char>, c: char, n: int)
    requires
        0 <= n <= s.len(),
        forall|k: int| 0 <= k < n ==> s[k] != c,
        n < s.len() ==> s[n] == c,
    ensures
        before(s, c) == s.take(n),
    decreases s.len(),
{
    if n == 0 {
        assert(before(s, c) =~= s.take(0));
    } else {
        lemma_before(s.drop_first(), c, n - 1);
        assert(seq![s[0]] + s.drop_first().take(n - 1) =~= s.take(n));
    }
}

/// The part of `s` before the first `c`, or all of it where there is none.
pub fn text_before(s: &str, c: char) -> (r: String)
    ensures
        r@ == before(s@, c),
{
    let text = to_chars(s);
    let mut n: usize = 0;
    while n < text.len() && text[n] != c
        invariant
            n <= text@.len(),
            forall|k: int| 0 <= k < n ==> text@[k] != c,
        decreases text@.len() - n,
    {
        n = n + 1;
    }
    proof {
        lemma_before(s@, c, n as int);
        assert(text@.subrange(0, n as int) =~= text@.take(n as int));
    }
    slice_text(&text, 0, n)
}

/// `s` without its first `n` characters.
pub fn text_after(s: &str, n: usize) -> (r: String)
    requires
        n <= s@.len(),
    ensures
        r@ == s@.skip(n as int),
{
    let text = to_chars(s);
    assert(text@.subrange(n as int, text@.len() as int) =~= text@.skip(n as int));
    slice_text(&text, n, text.len())
}

// ---- white space ---------------------------------------------------------------------------

/// Whether a character has the Unicode `White_Space` property.
pub open spec fn white(c: char) -> bool {
    ||| '\u{9}' <= c <= '\u{d}'
    ||| c == ' '
    ||| c == '\u{85}'
    ||| c == '\u{a0}'
    ||| c == '\u{1680}'
    ||| '\u{2000}' <= c <= '\u{200a}'
    ||| c == '\u{2028}'
    ||| c == '\u{2029}'
    ||| c == '\u{202f}'
    ||| c == '\u{205f}'
    ||| c == '\u{3000}'
}

/// Whether a character has the Unicode `White_Space` property.
pub fn is_white(c: char) -> (r: bool)
    ensures
        r == white(c),
{
    ('\u{9}' <= c && c <= '\u{d}') || c == ' ' || c == '\u{85}' || c == '\u{a0}' || c == '\u{1680}'
        || ('\u{2000}' <= c && c <= '\u{200a}') || c == '\u{2028}' || c == '\u{2029}'
        || c == '\u{202f}' || c == '\u{205f}' || c == '\u{3000}'
}

/// `s` without its leading white space.
pub open spec fn trimmed_start(s: Seq<char>) -> Seq<char>
    decreases s.len(),
{
    if s.len() > 0 && white(s[0]) {
        trimmed_start(s.drop_first())
    } else {
        s
    }
}

/// `s` without its trailing white space.
pub open spec fn trimmed_end(s: Seq<char>) -> Seq<char>
    decreases s.len(),
{
    if s.len() > 0 && white(s.last()) {
        trimmed_end(s.drop_last())
    } else {
        s
    }
}

/// `s` without white space at either end.
pub open spec fn trimmed(s: Seq<char>) -> Seq<char> {
    trimmed_end(trimmed_start(s))
}

proof fn lemma_trimmed_start(s: Seq<char>, n: int)
    requires
        0 <= n <= s.len(),
        forall|k: int| 0 <= k < n ==> white(s[k]),
        n < s.len() ==> !white(s[n]),
    ensures
        trimmed_start(s) == s.skip(n),
    decreases n,
{
    if n == 0 {
        assert(s.skip(0) =~= s);
    } else {
        lemma_trimmed_start(s.drop_first(), n - 1);
        assert(s.drop_first().skip(n - 1) =~= s.skip(n));
    }
}

proof fn lemma_trimmed_end(s: Seq<char>, n: int)
    requires
        0 <= n <= s.len(),
        forall|k: int| n <= k < s.len() ==> white(s[k]),
        n > 0 ==> !white(s[n - 1]),
    ensures
        trimmed_end(s) == s.take(n),
    decreases s.len(),
{
    if n == s.len() {
        assert(s.take(n) =~= s);
    } else {
        lemma_trimmed_end(s.drop_last(), n);
        assert(s.drop_last().take(n) =~= s.take(n));
    }
}

/// How many characters of white space `text` starts with.
fn white_prefix(text: &Vec<char>) -> (n: usize)
    ensures
        n <= text@.len(),
        text@.skip(n as int) == trimmed_start(text@),
{
    let mut n: usize = 0;
    while n < text.len() && is_white(text[n])
        invariant
            n <= text@.len(),
            forall|k: int| 0 <= k < n ==> white(text@[k]),
        decreases text@.len() - n,
    {
        n = n + 1;
    }
    proof {
        lemma_trimmed_start(text@, n as int);
    }
    n
}

/// `s` without its leading white space.
pub fn trim_start(s: &str) -> (r: String)
    ensures
        r@ == trimmed_start(s@),
{
    let text = to_chars(s);
    let n = white_prefix(&text);
    assert(text@.subrange(n as int, text@.len() as int) =~= text@.skip(n as int));
    slice_text(&text, n, text.len())
}

/// The white space that `s` starts with.
pub open spec fn white_lead(s: Seq<char>) -> Seq<char> {
    s.take(s.len() - trimmed_start(s).len())
}

/// How many bytes the white space takes that `s` starts with.
pub fn white_lead_bytes(s: &str) -> (n: usize)
    ensures
        n == encode_utf8(white_lead(s@)).len(),
{
    let text = to_chars(s);
    let n = white_prefix(&text);
    let lead = slice_text(&text, 0, n);
    assert(text@.subrange(0, n as int) =~= white_lead(s@));
    lead.as_str().as_bytes().len()
}

proof fn lemma_byte_count(s: Seq<char>)
    ensures
        encode_utf8(s).len() >= s.len(),
    decreases s.len(),
{
    if s.len() > 0 {
        lemma_byte_count(s.drop_first());
    }
}

/// No more spaces stand at the start of `s` than its leading white space takes bytes.
pub proof fn lemma_white_lead(s: Seq<char>)
    ensures
        leading_spaces(s) <= encode_utf8(white_lead(s)).len(),
{
    lemma_spaces_are_white(s);
    lemma_byte_count(white_lead(s));
}

proof fn lemma_spaces_are_white(s: Seq<char>)
    ensures
        leading_spaces(s) + trimmed_start(s).len() <= s.len(),
    decreases s.len(),
{
    if s.len() > 0 && white(s[0]) {
        lemma_spaces_are_white(s.drop_first());
    }
}

/// `s` without white space at either end.
pub fn trim(s: &str) -> (r: String)
    ensures
        r@ == trimmed(s@),
{
    let text = to_chars(s);
    let from = white_prefix(&text);
    let mut to: usize = text.len();
    let ghost rest = text@.skip(from as int);
    while to > from && is_white(text[to - 1])
        invariant
            from <= to <= text@.len(),
            rest == text@.skip(from as int),
            forall|k: int| to - from <= k < rest.len() ==> white(rest[k]),
        decreases to,
    {
        to = to - 1;
    }
    proof {
        lemma_trimmed_end(rest, to - from);
        assert(text@.subrange(from as int, to as int) =~= rest.take(to - from));
    }
    slice_text(&text, from, to)
}

/// How many spaces `s` starts with; no other character counts.
pub open spec fn leading_spaces(s: Seq<char>) -> nat
    decreases s.len(),
{
    if s.len() > 0 && s[0] == ' ' {
        1 + leading_spaces(s.drop_first())
    } else {
        0
    }
}

/// `leading_spaces`, told by the position of the first other character.
pub proof fn lemma_leading_spaces(s: Seq<char>, n: nat)
    requires
        n <= s.len(),
        forall|k: int| 0 <= k < n ==> s[k] == ' ',
        n < s.len() ==> s[n as int] != ' ',
    ensures
        leading_spaces(s) == n,
    decreases n,
{
    if n > 0 {
        lemma_leading_spaces(s.drop_first(), (n - 1) as nat);
    }
}

// ---- lines ---------------------------------------------------------------------------------

/// The position of the first line feed of `s` at or after `i`, or the length of `s`.
pub open spec fn line_end(s: Seq<char>, i: int) -> int
    decreases s.len() - i,
{
    if i >= s.len() {
        s.len() as int
    } else if s[i] == '\n' {
        i
    } else {
        line_end(s, i + 1)
    }
}

/// A line without the carriage return that stood before its line feed.
pub open spec fn without_return(s: Seq<char>) -> Seq<char> {
    if s.len() > 0 && s.last() == '\r' {
        s.drop_last()
    } else {
        s
    }
}

/// The lines of `s` from position `i` on. A line ends at a line feed, which a carriage
/// return may precede; neither belongs to the line. What follows the last line feed is
/// a line of its own unless it is empty, and is kept as it is.
pub open spec fn lines_from(s: Seq<char>, i: int) -> Seq<Seq<char>>
    decreases s.len() - i,
{
    if i < 0 || i >= s.len() {
        seq![]
    } else {
        let end = line_end(s, i);
        if end >= s.len() || end < i {
            seq![s.skip(i)]
        } else {
            seq![without_return(s.subrange(i, end))] + lines_from(s, end + 1)
        }
    }
}

/// The lines of a text.
pub open spec fn lines_of(s: Seq<char>) -> Seq<Seq<char>> {
    lines_from(s, 0)
}

proof fn lemma_line_end(s: Seq<char>, i: int, end: int)
    requires
        0 <= i <= end <= s.len(),
        forall|k: int| i <= k < end ==> s[k] != '\n',
        end < s.len() ==> s[end] == '\n',
    ensures
        line_end(s, i) == end,
    decreases end - i,
{
    if i < end {
        lemma_line_end(s, i + 1, end);
    }
}

/// The lines of a text.
pub fn split_lines(s: &str) -> (lines: Vec<String>)
    ensures
        texts(lines@) == lines_of(s@),
{
    let text = to_chars(s);
    let mut lines: Vec<String> = Vec::new();
    let mut start: usize = 0;
    let mut i: usize = 0;
    assert(texts(lines@) + lines_from(s@, 0) =~= lines_of(s@));
    while i < text.len()
        invariant
            text@ == s@,
            start <= i <= text@.len(),
            forall|k: int| start <= k < i ==> s@[k] != '\n',
            texts(lines@) + lines_from(s@, start as int) == lines_of(s@),
        decreases text@.len() - i,
    {
        if text[i] == '\n' {
            let to: usize = if i > start && text[i - 1] == '\r' { i - 1 } else { i };
            let line = slice_text(&text, start, to);
            let ghost done = texts(lines@);
            proof {
                lemma_line_end(s@, start as int, i as int);
                assert(line@ =~= without_return(s@.subrange(start as int, i as int)));
            }
            lines.push(line);
            proof {
                assert(texts(lines@) =~= done.push(line@));
                assert(done.push(line@) + lines_from(s@, i + 1) =~= done + (seq![line@]
                    + lines_from(s@, i + 1)));
            }
            start = i + 1;
        }
        i = i + 1;
    }
    if start < text.len() {
        let line = slice_text(&text, start, text.len());
        let ghost done = texts(lines@);
        proof {
            lemma_line_end(s@, start as int, i as int);
            assert(line@ =~= s@.skip(start as int));
        }
        lines.push(line);
        proof {
            assert(texts(lines@) =~= done.push(line@));
            assert(done.push(line@) =~= done + seq![line@]);
        }
    } else {
        assert(texts(lines@) + lines_from(s@, start as int) =~= texts(lines@));
    }
    lines
}

// ---- numbers and padding -------------------------------------------------------------------

/// The decimal digit `d` as a character.
pub open spec fn digit(d: nat) -> char {
    (48 + d) as char
}

/// A number in decimal notation.
pub open spec fn decimal(n: nat) -> Seq<char>
    decreases n,
{
    if n < 10 {
        seq![digit(n)]
    } else {
        decimal(n / 10).push(digit(n % 10))
    }
}

/// A number in decimal notation.
pub fn decimal_text(n: u128) -> (s: String)
    ensures
        s@ == decimal(n as nat),
    decreases n,
{
    let mut s = if n < 10 {
        String::new()
    } else {
        decimal_text(n / 10)
    };
    s.push((48u8 + (n % 10) as u8) as char);
    proof {
        assert(n < 10 ==> s@ =~= decimal(n as nat));
    }
    s
}

/// `s` followed by as many spaces as bring it to `width` characters.
pub open spec fn padded(s: Seq<char>, width: nat) -> Seq<char>
    decreases width - s.len(),
{
    if s.len() >= width {
        s
    } else {
        padded(s.push(' '), width)
    }
}

/// `s` followed by as many spaces as bring it to `width` characters.
pub fn pad_right(s: &str, width: usize) -> (r: String)
    ensures
        r@ == padded(s@, width as nat),
{
    let mut count: usize = to_chars(s).len();
    let mut r = String::from_str(s);
    while count < width
        invariant
            count == r@.len(),
            padded(r@, width as nat) == padded(s@, width as nat),
        decreases width - count,
    {
        r.push(' ');
        count = count + 1;
    }
    r
}

// ---- joining and replacing -----------------------------------------------------------------

/// The parts one after the other, with `separator` between them.
pub open spec fn joined(parts: Seq<Seq<char>>, separator: Seq<char>) -> Seq<char>
    decreases parts.len(),
{
    if parts.len() == 0 {
        seq![]
    } else if parts.len() == 1 {
        parts[0]
    } else {
        joined(parts.drop_last(), separator) + separator + parts.last()
    }
}

/// The parts one after the other, with `separator` between them.
pub fn join(parts: &Vec<String>, separator: &str) -> (r: String)
    ensures
        r@ == joined(texts(parts@), separator@),
{
    let mut r = String::new();
    let mut i: usize = 0;
    let ghost all = texts(parts@);
    while i < parts.len()
        invariant
            i <= parts@.len(),
            all == texts(parts@),
            r@ == joined(all.take(i as int), separator@),
        decreases parts@.len() - i,
    {
        proof {
            assert(all.take(i + 1).drop_last() =~= all.take(i as int));
            assert(all.take(i + 1).last() == parts@[i as int]@);
        }
        if i > 0 {
            r.append(separator);
            r.append(parts[i].as_str());
        } else {
            r = parts[i].clone();
        }
        i = i + 1;
    }
    assert(all.take(i as int) =~= all);
    r
}

/// `s` with every occurrence of `from`, found from left to right without overlap,
/// replaced by `to`.
pub open spec fn replaced(s: Seq<char>, from: Seq<char>, to: Seq<char>) -> Seq<char>
    decreases s.len(),
{
    if s.len() == 0 || from.len() == 0 {
        s
    } else if stands_at(s, from, 0) {
        to + replaced(s.skip(from.len() as int), from, to)
    } else {
        seq![s[0]] + replaced(s.skip(1), from, to)
    }
}

/// `s` with every occurrence of `from`, found from left to right without overlap,
/// replaced by `to`.
pub fn replace(s: &str, from: &str, to: &str) -> (r: String)
    requires
        from@.len() > 0,
    ensures
        r@ == replaced(s@, from@, to@),
{
    let text = to_chars(s);
    let wanted = to_chars(from);
    let mut r = String::new();
    let mut i: usize = 0;
    assert(s@.skip(0) =~= s@);
    assert(r@ + replaced(s@.skip(0), from@, to@) =~= replaced(s@, from@, to@));
    while i < text.len()
        invariant
            text@ == s@,
            wanted@ == from@,
            from@.len() > 0,
            i <= text@.len(),
            r@ + replaced(s@.skip(i as int), from@, to@) == replaced(s@, from@, to@),
        decreases text@.len() - i,
    {
        let ghost rest = s@.skip(i as int);
        let ghost done = r@;
        if has_at(&text, &wanted, i) {
            r.append(to);
            proof {
                assert(rest.subrange(0, from@.len() as int) =~= s@.subrange(i as int, i + from@.len()));
                assert(rest.skip(from@.len() as int) =~= s@.skip(i + from@.len()));
                assert(done + (to@ + replaced(s@.skip(i + from@.len()), from@, to@)) =~= r@
                    + replaced(s@.skip(i + from@.len()), from@, to@));
            }
            i = i + wanted.len();
        } else {
            r.push(text[i]);
            proof {
                if stands_at(rest, from@, 0) {
                    assert(rest.subrange(0, from@.len() as int) =~= s@.subrange(
                        i as int,
                        i + from@.len(),
                    ));
                }
                assert(rest.skip(1) =~= s@.skip(i + 1));
                assert(done + (seq![rest[0]] + replaced(s@.skip(i + 1), from@, to@)) =~= r@
                    + replaced(s@.skip(i + 1), from@, to@));
            }
            i = i + 1;
        }
    }
    assert(r@ + replaced(s@.skip(i as int), from@, to@) =~= r@);
    r
}

// ---- order ---------------------------------------------------------------------------------

/// Whether `a` comes before `b` in the order that compares code points one by one.
pub open spec fn precedes(a: Seq<char>, b: Seq<char>) -> bool
    decreases a.len(),
{
    if b.len() == 0 {
        false
    } else if a.len() == 0 {
        true
    } else if a[0] != b[0] {
        a[0] < b[0]
    } else {
        precedes(a.drop_first(), b.drop_first())
    }
}

/// Of two different texts exactly one comes before the other; a text does not come
/// before itself.
pub proof fn law_precedes_total(a: Seq<char>, b: Seq<char>)
    ensures
        a == b ==> !precedes(a, b),
        a != b ==> (precedes(a, b) <==> !precedes(b, a)),
    decreases a.len(),
{
    if a.len() > 0 && b.len() > 0 {
        law_precedes_total(a.drop_first(), b.drop_first());
        if a[0] == b[0] && a.drop_first() == b.drop_first() {
            assert(a =~= seq![a[0]] + a.drop_first());
            assert(b =~= seq![b[0]] + b.drop_first());
        }
    } else if a.len() == 0 && b.len() == 0 {
        assert(a =~= b);
    }
}

/// The order of texts is transitive.
pub proof fn law_precedes_transitive(a: Seq<char>, b: Seq<char>, c: Seq<char>)
    requires
        precedes(a, b),
        precedes(b, c),
    ensures
        precedes(a, c),
    decreases a.len(),
{
    if a.len() > 0 && b.len() > 0 && c.len() > 0 && a[0] == b[0] && b[0] == c[0] {
        law_precedes_transitive(a.drop_first(), b.drop_first(), c.drop_first());
    }
}

/// Whether `a` comes before `b` in the order of code points.
pub fn comes_before(a: &str, b: &str) -> (r: bool)
    ensures
        r == precedes(a@, b@),
{
    let x = to_chars(a);
    let y = to_chars(b);
    let mut i: usize = 0;
    assert(a@.skip(0) =~= a@);
    assert(b@.skip(0) =~= b@);
    while i < x.len() && i < y.len()
        invariant
            x@ == a@,
            y@ == b@,
            i <= x@.len(),
            i <= y@.len(),
            precedes(a@, b@) == precedes(a@.skip(i as int), b@.skip(i as int)),
        decreases x@.len() - i,
    {
        if x[i] != y[i] {
            return x[i] < y[i];
        }
        assert(a@.skip(i as int).drop_first() =~= a@.skip(i + 1));
        assert(b@.skip(i as int).drop_first() =~= b@.skip(i + 1));
        i = i + 1;
    }
    i < y.len()
}

// ---- what these are, told otherwise --------------------------------------------------------

/// A text stands in another at a position just where the characters agree one by one.
pub proof fn law_stands_at(s: Seq<char>, part: Seq<char>, at: int)
    ensures
        stands_at(s, part, at) <==> 0 <= at && at + part.len() <= s.len() && forall|k: int|
            0 <= k < part.len() ==> #[trigger] part[k] == s[at + k],
{
    if 0 <= at && at + part.len() <= s.len() {
        let cut = s.subrange(at, at + part.len());
        if cut == part {
            assert forall|k: int| 0 <= k < part.len() implies #[trigger] part[k] == s[at + k] by {
                assert(cut[k] == s[at + k]);
            }
        }
        if forall|k: int| 0 <= k < part.len() ==> #[trigger] part[k] == s[at + k] {
            assert(cut =~= part);
        }
    }
}

/// A text occurs in another just where something can be put before and behind it to make the
/// other.
pub proof fn law_occurs(before: Seq<char>, part: Seq<char>, behind: Seq<char>, s: Seq<char>)
    ensures
        occurs(before + part + behind, part),
        occurs(s, part) ==> exists|a: Seq<char>, b: Seq<char>| s == #[trigger] (a + part + b),
{
    let whole = before + part + behind;
    let at = before.len() as int;
    assert(whole.subrange(at, at + part.len()) =~= part);
    assert(stands_at(whole, part, at));
    if occurs(s, part) {
        let at = choose|at: int| stands_at(s, part, at);
        let a = s.take(at);
        let b = s.skip(at + part.len());
        assert(s =~= a + part + b);
    }
}

/// What stands before the first of a character holds none of them, and is followed by one
/// unless it is all there is.
pub proof fn law_before(s: Seq<char>, c: char)
    ensures
        before(s, c).len() <= s.len(),
        before(s, c) == s.take(before(s, c).len() as int),
        !before(s, c).contains(c),
        before(s, c).len() < s.len() ==> s[before(s, c).len() as int] == c,
    decreases s.len(),
{
    if s.len() > 0 && s[0] != c {
        let rest = s.drop_first();
        law_before(rest, c);
        let b = before(rest, c);
        assert(before(s, c) =~= s.take((b.len() + 1) as int));
        if before(s, c).contains(c) {
            let k = choose|k: int| 0 <= k < before(s, c).len() && before(s, c)[k] == c;
            assert(k > 0 ==> b[k - 1] == c);
        }
    } else {
        assert(before(s, c) =~= s.take(0));
    }
}

/// Trimming takes white space from the start and the end, all of it, and nothing else.
pub proof fn law_trimmed(s: Seq<char>) -> (r: (int, int))
    ensures
        0 <= r.0 <= r.1 <= s.len(),
        trimmed(s) == s.subrange(r.0, r.1),
        trimmed_start(s) == s.skip(r.0),
        forall|k: int| 0 <= k < r.0 ==> white(#[trigger] s[k]),
        forall|k: int| r.1 <= k < s.len() ==> white(#[trigger] s[k]),
        r.0 < r.1 ==> !white(s[r.0]) && !white(s[r.1 - 1]),
        r.0 == r.1 ==> r.0 == s.len(),
{
    let a = lemma_start_cut(s, 0);
    let rest = s.skip(a);
    let b = lemma_end_cut(rest);
    assert(s.skip(0) =~= s);
    assert(rest.take(b) =~= s.subrange(a, a + b));
    assert forall|k: int| a + b <= k < s.len() implies white(#[trigger] s[k]) by {
        assert(rest[k - a] == s[k]);
    }
    if b > 0 {
        assert(rest[b - 1] == s[a + b - 1]);
    } else if a < s.len() {
        assert(rest[0] == s[a]);
    }
    (a, a + b)
}

proof fn lemma_start_cut(s: Seq<char>, from: int) -> (n: int)
    requires
        0 <= from <= s.len(),
    ensures
        from <= n <= s.len(),
        trimmed_start(s.skip(from)) == s.skip(n),
        forall|k: int| from <= k < n ==> white(#[trigger] s[k]),
        n < s.len() ==> !white(s[n]),
    decreases s.len() - from,
{
    if from < s.len() && white(s[from]) {
        assert(s.skip(from).drop_first() =~= s.skip(from + 1));
        lemma_start_cut(s, from + 1)
    } else {
        from
    }
}

proof fn lemma_end_cut(s: Seq<char>) -> (n: int)
    ensures
        0 <= n <= s.len(),
        trimmed_end(s) == s.take(n),
        forall|k: int| n <= k < s.len() ==> white(#[trigger] s[k]),
        n > 0 ==> !white(s[n - 1]),
    decreases s.len(),
{
    if s.len() > 0 && white(s.last()) {
        let n = lemma_end_cut(s.drop_last());
        assert(s.drop_last().take(n) =~= s.take(n));
        assert forall|k: int| n <= k < s.len() implies white(#[trigger] s[k]) by {
            if k < s.len() - 1 {
                assert(s.drop_last()[k] == s[k]);
            }
        }
        n
    } else {
        assert(s.take(s.len() as int) =~= s);
        s.len() as int
    }
}

/// The spaces at the start of a text are all spaces, and another character follows them.
pub proof fn law_leading_spaces(s: Seq<char>)
    ensures
        leading_spaces(s) <= s.len(),
        forall|k: int| 0 <= k < leading_spaces(s) ==> #[trigger] s[k] == ' ',
        leading_spaces(s) < s.len() ==> s[leading_spaces(s) as int] != ' ',
    decreases s.len(),
{
    if s.len() > 0 && s[0] == ' ' {
        let rest = s.drop_first();
        law_leading_spaces(rest);
        assert forall|k: int| 0 <= k < leading_spaces(s) implies #[trigger] s[k] == ' ' by {
            assert(k > 0 ==> rest[k - 1] == s[k]);
        }
        assert(leading_spaces(s) < s.len() ==> rest[leading_spaces(rest) as int]
            == s[leading_spaces(s) as int]);
    }
}

/// A text without a line feed is one line, or none where it is empty. Putting such a text and a
/// line feed in front of another puts it in front of its lines, without the carriage return that
/// it may end in.
pub proof fn law_lines(line: Seq<char>, rest: Seq<char>)
    requires
        !line.contains('\n'),
    ensures
        lines_of(seq![]) == Seq::<Seq<char>>::empty(),
        line.len() > 0 ==> lines_of(line) == seq![line],
        line.len() > 0 && line.last() == '\r' ==> lines_of(line + seq!['\n'] + rest) == seq![
            line.drop_last(),
        ] + lines_of(rest),
        line.len() == 0 || line.last() != '\r' ==> lines_of(line + seq!['\n'] + rest) == seq![
            line,
        ] + lines_of(rest),
{
    assert(lines_of(seq![]) =~= Seq::<Seq<char>>::empty());
    assert forall|k: int| 0 <= k < line.len() implies line[k] != '\n' by {
        assert(line.contains(line[k]));
    }
    lemma_line_end(line, 0, line.len() as int);
    assert(line.skip(0) =~= line);
    let s = line + seq!['\n'] + rest;
    let n = line.len() as int;
    lemma_line_end(s, 0, n);
    assert(s.subrange(0, n) =~= line);
    assert(s.skip(n + 1) =~= rest);
    lemma_lines_shift(s, n + 1, 0);
}

proof fn lemma_lines_shift(s: Seq<char>, by: int, i: int)
    requires
        0 <= by <= s.len(),
        0 <= i,
    ensures
        lines_from(s, by + i) == lines_from(s.skip(by), i),
    decreases s.len() - by - i,
{
    let t = s.skip(by);
    if by + i < s.len() {
        lemma_line_end_shift(s, by, i);
        let end = line_end(t, i);
        lemma_line_end_bound(t, i);
        if end < t.len() {
            lemma_lines_shift(s, by, end + 1);
            assert(s.subrange(by + i, by + end) =~= t.subrange(i, end));
        } else {
            assert(s.skip(by + i) =~= t.skip(i));
        }
    }
}

proof fn lemma_line_end_shift(s: Seq<char>, by: int, i: int)
    requires
        0 <= by <= s.len(),
        0 <= i,
        by + i <= s.len(),
    ensures
        line_end(s, by + i) == by + line_end(s.skip(by), i),
    decreases s.len() - by - i,
{
    if by + i < s.len() && s[by + i] != '\n' {
        lemma_line_end_shift(s, by, i + 1);
    }
}

proof fn lemma_line_end_bound(s: Seq<char>, i: int)
    requires
        0 <= i <= s.len(),
    ensures
        i <= line_end(s, i) <= s.len(),
    decreases s.len() - i,
{
    if i < s.len() && s[i] != '\n' {
        lemma_line_end_bound(s, i + 1);
    }
}

/// The number that a text of decimal digits stands for.
pub open spec fn number_of(s: Seq<char>) -> int
    decreases s.len(),
{
    if s.len() == 0 {
        0
    } else {
        10 * number_of(s.drop_last()) + (s.last() as int - '0' as int)
    }
}

/// A number in decimal notation is made of digits, stands for that number, and starts with a
/// zero only where it is zero.
pub proof fn law_decimal(n: nat)
    ensures
        number_of(decimal(n)) == n,
        decimal(n).len() > 0,
        forall|k: int| 0 <= k < decimal(n).len() ==> '0' <= #[trigger] decimal(n)[k] <= '9',
        n > 0 ==> decimal(n)[0] != '0',
        n == 0 ==> decimal(n) == seq!['0'],
    decreases n,
{
    let s = decimal(n);
    if n < 10 {
        assert(s.drop_last() =~= seq![]);
        assert(number_of(s.drop_last()) == 0);
    } else {
        law_decimal(n / 10);
        let front = decimal(n / 10);
        assert(s.drop_last() =~= front);
        assert(s.last() == digit(n % 10));
        assert(s[0] == front[0]);
        assert forall|k: int| 0 <= k < s.len() implies '0' <= #[trigger] s[k] <= '9' by {
            if k < front.len() {
                assert(s[k] == front[k]);
            }
        }
    }
}

/// Padding keeps the text, adds spaces behind it, and brings it to the width unless it was as
/// long already.
pub proof fn law_padded(s: Seq<char>, width: nat)
    ensures
        s.len() >= width ==> padded(s, width) == s,
        s.len() < width ==> padded(s, width).len() == width,
        padded(s, width).len() >= s.len(),
        padded(s, width).take(s.len() as int) == s,
        forall|k: int| s.len() <= k < padded(s, width).len() ==> #[trigger] padded(s, width)[k]
            == ' ',
    decreases width - s.len(),
{
    let p = padded(s, width);
    if s.len() < width {
        let longer = s.push(' ');
        law_padded(longer, width);
        assert(p.take(longer.len() as int) == longer);
        assert forall|k: int| 0 <= k < longer.len() implies p[k] == longer[k] by {
            assert(p.take(longer.len() as int)[k] == p[k]);
        }
        assert(p.take(s.len() as int) =~= s);
    } else {
        assert(p.take(s.len() as int) =~= s);
    }
}

/// Joining a part with others puts it first, then the separator, then the others joined.
pub proof fn law_joined(first: Seq<char>, rest: Seq<Seq<char>>, separator: Seq<char>)
    ensures
        joined(seq![], separator) == Seq::<char>::empty(),
        joined(seq![first], separator) == first,
        rest.len() > 0 ==> joined(seq![first] + rest, separator) == first + separator + joined(
            rest,
            separator,
        ),
    decreases rest.len(),
{
    if rest.len() > 0 {
        let all = seq![first] + rest;
        let fewer = rest.drop_last();
        assert(all.drop_last() =~= seq![first] + fewer);
        assert(all.last() == rest.last());
        if fewer.len() > 0 {
            law_joined(first, fewer, separator);
            assert(joined(all, separator) =~= first + separator + joined(rest, separator));
        } else {
            assert(all.drop_last() =~= seq![first]);
            assert(joined(all.drop_last(), separator) == first);
            assert(joined(rest, separator) == rest.last());
            assert(joined(all, separator) =~= first + separator + joined(rest, separator));
        }
    }
}

/// Replacing leaves alone a text in which nothing is to be replaced. Otherwise it keeps what
/// stands before the first occurrence, puts the new text in its place, and goes on behind it.
pub proof fn law_replaced(s: Seq<char>, from: Seq<char>, to: Seq<char>, at: int)
    requires
        from.len() > 0,
    ensures
        !occurs(s, from) ==> replaced(s, from, to) == s,
        stands_at(s, from, at) && (forall|k: int| 0 <= k < at ==> !stands_at(s, from, k))
            ==> replaced(s, from, to) == s.take(at) + to + replaced(
            s.skip(at + from.len()),
            from,
            to,
        ),
    decreases s.len(),
{
    if s.len() > 0 {
        let t = s.skip(1);
        if !stands_at(s, from, 0) {
            law_replaced(t, from, to, at - 1);
            if !occurs(s, from) {
                if occurs(t, from) {
                    let k = choose|k: int| stands_at(t, from, k);
                    assert(s.subrange(k + 1, k + 1 + from.len()) =~= t.subrange(
                        k,
                        k + from.len(),
                    ));
                    assert(stands_at(s, from, k + 1));
                }
                assert(seq![s[0]] + t =~= s);
            }
            if stands_at(s, from, at) && (forall|k: int|
                0 <= k < at ==> !stands_at(s, from, k)) {
                assert(at > 0);
                assert(s.subrange(at, at + from.len()) =~= t.subrange(
                    at - 1,
                    at - 1 + from.len(),
                ));
                assert(stands_at(t, from, at - 1));
                assert forall|k: int| 0 <= k < at - 1 implies !stands_at(t, from, k) by {
                    assert(!stands_at(s, from, k + 1));
                    if stands_at(t, from, k) {
                        assert(s.subrange(k + 1, k + 1 + from.len()) =~= t.subrange(
                            k,
                            k + from.len(),
                        ));
                    }
                }
                assert(t.skip(at - 1 + from.len()) =~= s.skip(at + from.len()));
                assert(seq![s[0]] + t.take(at - 1) =~= s.take(at));
                assert(replaced(s, from, to) =~= s.take(at) + to + replaced(
                    s.skip(at + from.len()),
                    from,
                    to,
                ));
            }
        } else if at == 0 {
            assert(replaced(s, from, to) =~= s.take(0) + to + replaced(
                s.skip(from.len() as int),
                from,
                to,
            ));
        }
    }
}

/// A text comes before another just where it is the start of it and shorter, or where, at the
/// first place at which they differ, its character is the lower one.
pub proof fn law_precedes(a: Seq<char>, b: Seq<char>, k: int)
    requires
        0 <= k <= a.len(),
        k <= b.len(),
        forall|i: int| 0 <= i < k ==> #[trigger] a[i] == b[i],
        k < a.len() && k < b.len() ==> a[k] != b[k],
    ensures
        k == b.len() ==> !precedes(a, b),
        k == a.len() && k < b.len() ==> precedes(a, b),
        k < a.len() && k < b.len() ==> (precedes(a, b) <==> a[k] < b[k]),
    decreases k,
{
    if k > 0 {
        let x = a.drop_first();
        let y = b.drop_first();
        assert(a[0] == b[0]);
        assert forall|i: int| 0 <= i < k - 1 implies #[trigger] x[i] == y[i] by {
            assert(a[i + 1] == b[i + 1]);
        }
        law_precedes(x, y, k - 1);
    }
}

/// White space is the tab, the line feed, the vertical tab, the form feed, the carriage return,
/// the space and the characters beyond ASCII that Unicode counts with them.
pub proof fn law_white(c: char)
    ensures
        white(c) <==> {
            let u = c as u32;
            ||| 9 <= u <= 13
            ||| u == 32
            ||| u == 133
            ||| u == 160
            ||| u == 5760
            ||| 8192 <= u <= 8202
            ||| u == 8232
            ||| u == 8233
            ||| u == 8239
            ||| u == 8287
            ||| u == 12288
        },
{
}

/// A text begins with a character where it has one and that is the first.
pub proof fn law_begins(s: Seq<char>, c: char)
    ensures
        begins(seq![], c) == false,
        begins(seq![c] + s, c),
        s.len() > 0 && s[0] != c ==> !begins(s, c),
{
    assert((seq![c] + s)[0] == c);
}

} // verus!
