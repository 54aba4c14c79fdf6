//! Where the functions and classes of a Python file begin and end, told by indentation.

use crate::pyleak::pattern::{
    accepts, capture_lines, captured, group, group_texts, regex_accepts, regex_groups,
};
use crate::text::{
    begins, begins_with, law_trimmed, leading_spaces, lemma_leading_spaces, lemma_white_lead,
    opt_text, str_texts, to_chars, trim_start, trimmed_start, white, white_lead, white_lead_bytes,
};
use vstd::prelude::*;
use vstd::utf8::encode_utf8;

verus! {

/// A line that opens a function, with or without `async`: its name.
pub const DEF_PATTERN: &'static str =
    r"^\s*(?:async\s+)?def\s+([A-Za-z_][A-Za-z0-9_]*)\s*\(";

/// A line that opens a class: its name.
pub const CLASS_PATTERN: &'static str = r"^\s*class\s+([A-Za-z_][A-Za-z0-9_]*)\s*[\(:]";

/// The lines of one function: `start` is the line of its `def`, `end` the line after its
/// last one, both counted from zero.
#[derive(Debug)]
pub struct FuncSpan {
    pub name: String,
    pub indent: usize,
    pub start: usize,
    pub end: usize,
}

/// The lines of one class, counted as those of a function.
#[derive(Debug)]
pub struct ClassSpan {
    pub name: String,
    pub indent: usize,
    pub start: usize,
    pub end: usize,
}

/// What a span says, of a function or of a class.
pub struct Span {
    pub name: Seq<char>,
    pub indent: int,
    pub start: int,
    pub end: int,
}

impl Clone for FuncSpan {
    fn clone(&self) -> (r: Self)
        ensures
            r@ == self@,
    {
        FuncSpan {
            name: self.name.clone(),
            indent: self.indent,
            start: self.start,
            end: self.end,
        }
    }
}

impl View for FuncSpan {
    type V = Span;

    open spec fn view(&self) -> Span {
        Span {
            name: self.name@,
            indent: self.indent as int,
            start: self.start as int,
            end: self.end as int,
        }
    }
}

impl Clone for ClassSpan {
    fn clone(&self) -> (r: Self)
        ensures
            r@ == self@,
    {
        ClassSpan {
            name: self.name.clone(),
            indent: self.indent,
            start: self.start,
            end: self.end,
        }
    }
}

impl View for ClassSpan {
    type V = Span;

    open spec fn view(&self) -> Span {
        Span {
            name: self.name@,
            indent: self.indent as int,
            start: self.start as int,
            end: self.end as int,
        }
    }
}

/// What the spans of functions say.
pub open spec fn func_spans(spans: Seq<FuncSpan>) -> Seq<Span> {
    Seq::new(spans.len(), |i: int| spans[i]@)
}

/// What the spans of classes say.
pub open spec fn class_spans(spans: Seq<ClassSpan>) -> Seq<Span> {
    Seq::new(spans.len(), |i: int| spans[i]@)
}

/// The opening line of a function or a class: how many bytes of white space it starts with,
/// and the name that a pattern found in it.
#[derive(Debug)]
pub struct Header {
    pub indent: usize,
    pub name: String,
}

/// What a header says.
pub struct HeaderText {
    pub indent: int,
    pub name: Seq<char>,
}

impl Clone for Header {
    fn clone(&self) -> (r: Self)
        ensures
            r@ == self@,
    {
        Header {
            indent: self.indent,
            name: self.name.clone(),
        }
    }
}

impl View for Header {
    type V = HeaderText;

    open spec fn view(&self) -> HeaderText {
        HeaderText { indent: self.indent as int, name: self.name@ }
    }
}

/// What an optional header says.
pub open spec fn opt_header(h: Option<Header>) -> Option<HeaderText> {
    match h {
        Some(h) => Some(h@),
        None => None,
    }
}

/// What the headers of a file's lines say.
pub open spec fn header_texts(headers: Seq<Option<Header>>) -> Seq<Option<HeaderText>> {
    Seq::new(headers.len(), |i: int| opt_header(headers[i]))
}

/// How many spaces a line starts with.
pub fn indent_of(line: &str) -> (n: usize)
    ensures
        n == leading_spaces(line@),
{
    let text = to_chars(line);
    let mut n: usize = 0;
    while n < text.len() && text[n] == ' '
        invariant
            n <= text@.len(),
            forall|k: int| 0 <= k < n ==> text@[k] == ' ',
        decreases text@.len() - n,
    {
        n = n + 1;
    }
    proof {
        lemma_leading_spaces(text@, n as nat);
    }
    n
}

/// Whether a line holds only white space, or a comment after white space.
pub open spec fn blank_or_comment(line: Seq<char>) -> bool {
    trimmed_start(line).len() == 0 || begins(trimmed_start(line), '#')
}

/// Whether a line holds only white space, or a comment after white space.
pub fn is_blank_or_comment(line: &str) -> (r: bool)
    ensures
        r == blank_or_comment(line@),
{
    let t = trim_start(line);
    t.as_str().is_empty() || begins_with(&t, '#')
}

/// The first line from `j` on that closes a block of the given indentation, a line that
/// is neither blank nor a comment and is not indented deeper; or the number of lines.
pub open spec fn block_end(lines: Seq<Seq<char>>, j: int, indent: int) -> int
    decreases lines.len() - j,
{
    if j >= lines.len() {
        lines.len() as int
    } else if !blank_or_comment(lines[j]) && leading_spaces(lines[j]) <= indent {
        j
    } else {
        block_end(lines, j + 1, indent)
    }
}

/// The spans of the blocks that the headers open, where `headers[i]` is that of line `i`,
/// for the first `n` lines.
pub open spec fn blocks(
    headers: Seq<Option<HeaderText>>,
    lines: Seq<Seq<char>>,
    n: int,
) -> Seq<Span>
    decreases n,
{
    if n <= 0 {
        seq![]
    } else {
        match headers[n - 1] {
            Some(h) => blocks(headers, lines, n - 1).push(
                Span {
                    name: h.name,
                    indent: h.indent,
                    start: n - 1,
                    end: block_end(lines, n, h.indent),
                },
            ),
            None => blocks(headers, lines, n - 1),
        }
    }
}

fn find_block_end(lines: &[&str], from: usize, indent: usize) -> (end: usize)
    requires
        from <= lines@.len(),
    ensures
        end == block_end(str_texts(lines@), from as int, indent as int),
        from <= end <= lines@.len(),
{
    let mut j: usize = from;
    while j < lines.len()
        invariant
            from <= j <= lines@.len(),
            block_end(str_texts(lines@), from as int, indent as int) == block_end(
                str_texts(lines@),
                j as int,
                indent as int,
            ),
        decreases lines@.len() - j,
    {
        if !is_blank_or_comment(lines[j]) && indent_of(lines[j]) <= indent {
            return j;
        }
        j = j + 1;
    }
    j
}

/// The functions that the headers open.
pub fn functions_at(headers: &Vec<Option<Header>>, lines: &[&str]) -> (spans: Vec<FuncSpan>)
    requires
        headers@.len() == lines@.len(),
    ensures
        func_spans(spans@) == blocks(
            header_texts(headers@),
            str_texts(lines@),
            lines@.len() as int,
        ),
{
    let mut spans: Vec<FuncSpan> = Vec::new();
    let mut i: usize = 0;
    assert(func_spans(spans@) =~= seq![]);
    while i < lines.len()
        invariant
            i <= lines@.len(),
            headers@.len() == lines@.len(),
            func_spans(spans@) == blocks(header_texts(headers@), str_texts(lines@), i as int),
        decreases lines@.len() - i,
    {
        let ghost before = func_spans(spans@);
        if let Some(h) = &headers[i] {
            let end = find_block_end(lines, i + 1, h.indent);
            spans.push(FuncSpan { name: h.name.clone(), indent: h.indent, start: i, end });
            assert(func_spans(spans@) =~= before.push(spans@.last()@));
        }
        i = i + 1;
    }
    spans
}

/// The classes that the headers open.
pub fn classes_at(headers: &Vec<Option<Header>>, lines: &[&str]) -> (spans: Vec<ClassSpan>)
    requires
        headers@.len() == lines@.len(),
    ensures
        class_spans(spans@) == blocks(
            header_texts(headers@),
            str_texts(lines@),
            lines@.len() as int,
        ),
{
    let mut spans: Vec<ClassSpan> = Vec::new();
    let mut i: usize = 0;
    assert(class_spans(spans@) =~= seq![]);
    while i < lines.len()
        invariant
            i <= lines@.len(),
            headers@.len() == lines@.len(),
            class_spans(spans@) == blocks(header_texts(headers@), str_texts(lines@), i as int),
        decreases lines@.len() - i,
    {
        let ghost before = class_spans(spans@);
        if let Some(h) = &headers[i] {
            let end = find_block_end(lines, i + 1, h.indent);
            spans.push(ClassSpan { name: h.name.clone(), indent: h.indent, start: i, end });
            assert(class_spans(spans@) =~= before.push(spans@.last()@));
        }
        i = i + 1;
    }
    spans
}

/// The header that a pattern finds in a line of code: its first group is the name.
pub open spec fn header_in(pattern: Seq<char>, line: Seq<char>) -> Option<HeaderText> {
    match captured(pattern, line, 1) {
        Some(name) => if blank_or_comment(line) {
            None
        } else {
            Some(HeaderText { indent: encode_utf8(white_lead(line)).len() as int, name })
        },
        None => None,
    }
}

/// The headers that a pattern finds in the lines.
pub open spec fn headers_in(pattern: Seq<char>, lines: Seq<Seq<char>>) -> Seq<
    Option<HeaderText>,
> {
    Seq::new(lines.len(), |i: int| header_in(pattern, lines[i]))
}

/// The headers that a pattern finds in the lines. `None` if the pattern is not one that
/// compiles.
pub(crate) fn find_headers(pattern: &str, lines: &[&str]) -> (r: Option<Vec<Option<Header>>>)
    ensures
        r is Some <==> regex_accepts(pattern@),
        r matches Some(headers) ==> headers@.len() == lines@.len() && header_texts(headers@)
            == headers_in(pattern@, str_texts(lines@)),
{
    match capture_lines(pattern, lines) {
        Some(found) => {
            let mut headers: Vec<Option<Header>> = Vec::new();
            let mut i: usize = 0;
            while i < found.len()
                invariant
                    i <= found@.len() == lines@.len(),
                    headers@.len() == i,
                    forall|k: int|
                        0 <= k < found@.len() ==> group_texts(#[trigger] found@[k])
                            == regex_groups(pattern@, str_texts(lines@)[k]),
                    forall|k: int|
                        0 <= k < i ==> opt_header(#[trigger] headers@[k]) == header_in(
                            pattern@,
                            str_texts(lines@)[k],
                        ),
                decreases found@.len() - i,
            {
                assert(str_texts(lines@)[i as int] == lines@[i as int]@);
                let header = match group(&found[i], 1) {
                    Some(name) => if is_blank_or_comment(lines[i]) {
                        None
                    } else {
                        Some(Header { indent: white_lead_bytes(lines[i]), name })
                    },
                    None => None,
                };
                headers.push(header);
                i = i + 1;
            }
            assert(header_texts(headers@) =~= headers_in(pattern@, str_texts(lines@)));
            Some(headers)
        },
        None => None,
    }
}

/// The functions of a file.
pub open spec fn functions_of(lines: Seq<Seq<char>>) -> Seq<Span> {
    blocks(headers_in(DEF_PATTERN@, lines), lines, lines.len() as int)
}

/// The classes of a file.
pub open spec fn classes_of(lines: Seq<Seq<char>>) -> Seq<Span> {
    blocks(headers_in(CLASS_PATTERN@, lines), lines, lines.len() as int)
}

/// Finds all function definitions in a file's lines and computes the span of each body
/// by simple indentation tracking (good enough for heuristic analysis, not a full parser).
pub fn parse_functions(lines: &[&str]) -> (spans: Vec<FuncSpan>)
    requires
        regex_accepts(DEF_PATTERN@),
    ensures
        func_spans(spans@) == functions_of(str_texts(lines@)),
{
    match find_headers(DEF_PATTERN, lines) {
        Some(headers) => functions_at(&headers, lines),
        None => Vec::new(),
    }
}

/// `parse_functions`, where its pattern compiles.
pub fn try_parse_functions(lines: &[&str]) -> (r: Option<Vec<FuncSpan>>)
    ensures
        r is Some <==> regex_accepts(DEF_PATTERN@),
        r matches Some(spans) ==> func_spans(spans@) == functions_of(str_texts(lines@)),
{
    if accepts(DEF_PATTERN) {
        Some(parse_functions(lines))
    } else {
        None
    }
}

/// Finds all class definitions in a file's lines, in the same way.
pub fn parse_classes(lines: &[&str]) -> (spans: Vec<ClassSpan>)
    requires
        regex_accepts(CLASS_PATTERN@),
    ensures
        class_spans(spans@) == classes_of(str_texts(lines@)),
{
    match find_headers(CLASS_PATTERN, lines) {
        Some(headers) => classes_at(&headers, lines),
        None => Vec::new(),
    }
}

/// `parse_classes`, where its pattern compiles.
pub fn try_parse_classes(lines: &[&str]) -> (r: Option<Vec<ClassSpan>>)
    ensures
        r is Some <==> regex_accepts(CLASS_PATTERN@),
        r matches Some(spans) ==> class_spans(spans@) == classes_of(str_texts(lines@)),
{
    if accepts(CLASS_PATTERN) {
        Some(parse_classes(lines))
    } else {
        None
    }
}

/// Whether a line belongs to the body of a span, its opening line not counted.
pub open spec fn covers(span: Span, line: int) -> bool {
    span.start < line < span.end
}

/// The position of the innermost of the spans that cover a line: the one of deepest
/// indentation, and of these the last.
pub open spec fn innermost(spans: Seq<Span>, line: int) -> Option<int>
    decreases spans.len(),
{
    if spans.len() == 0 {
        None
    } else {
        let last = spans.len() - 1;
        match innermost(spans.drop_last(), line) {
            Some(i) => if covers(spans[last], line) && spans[i].indent <= spans[last].indent {
                Some(last)
            } else {
                Some(i)
            },
            None => if covers(spans[last], line) {
                Some(last)
            } else {
                None
            },
        }
    }
}

/// The name of the innermost of the spans that cover a line.
pub open spec fn enclosing(spans: Seq<Span>, line: int) -> Option<Seq<char>> {
    match innermost(spans, line) {
        Some(i) => Some(spans[i].name),
        None => None,
    }
}

/// The position of the innermost function around a line, if any.
pub fn innermost_function(spans: &[FuncSpan], line: usize) -> (r: Option<usize>)
    ensures
        (match r {
            Some(i) => Some(i as int),
            None => None,
        }) == innermost(func_spans(spans@), line as int),
        r matches Some(i) ==> i < spans@.len(),
{
    let mut best: Option<usize> = None;
    let mut i: usize = 0;
    let ghost all = func_spans(spans@);
    while i < spans.len()
        invariant
            i <= spans@.len(),
            all == func_spans(spans@),
            best matches Some(b) ==> b < i,
            (match best {
                Some(b) => Some(b as int),
                None => None,
            }) == innermost(all.take(i as int), line as int),
        decreases spans@.len() - i,
    {
        proof {
            assert(all.take(i + 1).drop_last() =~= all.take(i as int));
        }
        if spans[i].start < line && line < spans[i].end {
            best = match best {
                Some(b) => if spans[b].indent <= spans[i].indent {
                    Some(i)
                } else {
                    Some(b)
                },
                None => Some(i),
            };
        }
        i = i + 1;
    }
    assert(all.take(i as int) =~= all);
    best
}

/// The name of the innermost function around a line, if any.
pub fn enclosing_function(spans: &[FuncSpan], line: usize) -> (name: Option<String>)
    ensures
        opt_text(name) == enclosing(func_spans(spans@), line as int),
{
    match innermost_function(spans, line) {
        Some(i) => {
            assert(func_spans(spans@)[i as int] == spans@[i as int]@);
            Some(spans[i].name.clone())
        },
        None => None,
    }
}

/// The name of the innermost class around a line, if any.
pub fn enclosing_class(spans: &[ClassSpan], line: usize) -> (name: Option<String>)
    ensures
        opt_text(name) == enclosing(class_spans(spans@), line as int),
{
    let mut best: Option<usize> = None;
    let mut i: usize = 0;
    let ghost all = class_spans(spans@);
    while i < spans.len()
        invariant
            i <= spans@.len(),
            all == class_spans(spans@),
            best matches Some(b) ==> b < i,
            (match best {
                Some(b) => Some(b as int),
                None => None,
            }) == innermost(all.take(i as int), line as int),
        decreases spans@.len() - i,
    {
        proof {
            assert(all.take(i + 1).drop_last() =~= all.take(i as int));
        }
        if spans[i].start < line && line < spans[i].end {
            best = match best {
                Some(b) => if spans[b].indent <= spans[i].indent {
                    Some(i)
                } else {
                    Some(b)
                },
                None => Some(i),
            };
        }
        i = i + 1;
    }
    assert(all.take(i as int) =~= all);
    match best {
        Some(b) => Some(spans[b].name.clone()),
        None => None,
    }
}

/// A closing line is found at or after the line where the search starts.
proof fn lemma_block_end(lines: Seq<Seq<char>>, j: int, indent: int)
    requires
        0 <= j <= lines.len(),
    ensures
        j <= block_end(lines, j, indent) <= lines.len(),
        forall|k: int|
            j <= k < block_end(lines, j, indent) ==> blank_or_comment(lines[k]) || leading_spaces(
                lines[k],
            ) > indent,
        block_end(lines, j, indent) < lines.len() ==> !blank_or_comment(
            lines[block_end(lines, j, indent)],
        ) && leading_spaces(lines[block_end(lines, j, indent)]) <= indent,
    decreases lines.len() - j,
{
    if j < lines.len() && (blank_or_comment(lines[j]) || leading_spaces(lines[j]) > indent) {
        lemma_block_end(lines, j + 1, indent);
    }
}

/// Whether a span is the block that the header of one of the lines opens.
pub open spec fn opened_block(
    headers: Seq<Option<HeaderText>>,
    lines: Seq<Seq<char>>,
    span: Span,
) -> bool {
    &&& 0 <= span.start < span.end <= lines.len()
    &&& headers[span.start] == Some(HeaderText { indent: span.indent, name: span.name })
    &&& forall|k: int|
        span.start < k < span.end ==> blank_or_comment(lines[k]) || leading_spaces(lines[k])
            > span.indent
    &&& span.end < lines.len() ==> !blank_or_comment(lines[span.end]) && leading_spaces(
        lines[span.end],
    ) <= span.indent
}

/// Every span starts at its opening line and lies within the file; the lines of its body
/// are blank, comments, or indented deeper than its opening line; and the line that ends
/// it, unless that is the end of the file, is none of these. The spans come in the order
/// of their opening lines.
pub proof fn law_blocks(
    headers: Seq<Option<HeaderText>>,
    lines: Seq<Seq<char>>,
    n: int,
)
    requires
        0 <= n <= lines.len(),
        headers.len() == lines.len(),
    ensures
        forall|i: int|
            0 <= i < blocks(headers, lines, n).len() ==> opened_block(
                headers,
                lines,
                #[trigger] blocks(headers, lines, n)[i],
            ) && blocks(headers, lines, n)[i].start < n,
        forall|i: int, j: int|
            0 <= i < j < blocks(headers, lines, n).len() ==> (#[trigger] blocks(
                headers,
                lines,
                n,
            )[i]).start < (#[trigger] blocks(headers, lines, n)[j]).start,
    decreases n,
{
    if n > 0 {
        law_blocks(headers, lines, n - 1);
        let fewer = blocks(headers, lines, n - 1);
        let all = blocks(headers, lines, n);
        if let Some(h) = headers[n - 1] {
            lemma_block_end(lines, n, h.indent);
            assert(opened_block(headers, lines, all.last()));
        }
        assert(forall|k: int| 0 <= k < fewer.len() ==> fewer[k] == #[trigger] all[k]);
    }
}

/// Every line that has a header opens a block.
pub proof fn law_every_header_opens_a_block(
    headers: Seq<Option<HeaderText>>,
    lines: Seq<Seq<char>>,
    n: int,
    i: int,
)
    requires
        0 <= i < n <= lines.len(),
        headers.len() == lines.len(),
        headers[i] is Some,
    ensures
        exists|k: int|
            0 <= k < blocks(headers, lines, n).len() && (#[trigger] blocks(headers, lines, n)[k]).start
                == i,
    decreases n,
{
    let all = blocks(headers, lines, n);
    if i == n - 1 {
        assert(all[all.len() - 1].start == i);
    } else {
        law_every_header_opens_a_block(headers, lines, n - 1, i);
        let fewer = blocks(headers, lines, n - 1);
        let k = choose|k: int| 0 <= k < fewer.len() && (#[trigger] fewer[k]).start == i;
        assert(all[k] == fewer[k]);
    }
}

/// The innermost span covers the line; no span that covers the line is indented deeper,
/// and none of the same indentation comes after it. There is none only where no span
/// covers the line.
pub proof fn law_innermost(spans: Seq<Span>, line: int)
    ensures
        match innermost(spans, line) {
            Some(i) => {
                &&& 0 <= i < spans.len()
                &&& covers(spans[i], line)
                &&& forall|j: int|
                    0 <= j < spans.len() && covers(#[trigger] spans[j], line) ==> {
                        &&& spans[j].indent <= spans[i].indent
                        &&& j > i ==> spans[j].indent < spans[i].indent
                    }
            },
            None => forall|j: int| 0 <= j < spans.len() ==> !covers(#[trigger] spans[j], line),
        },
    decreases spans.len(),
{
    if spans.len() > 0 {
        law_innermost(spans.drop_last(), line);
        assert(forall|j: int|
            0 <= j < spans.len() - 1 ==> spans.drop_last()[j] == #[trigger] spans[j]);
    }
}

// ---- nesting -------------------------------------------------------------------------------

/// Whether every header stands on a line of code, and is indented at least as deep as that
/// line.
pub open spec fn headers_stand(
    headers: Seq<Option<HeaderText>>,
    lines: Seq<Seq<char>>,
) -> bool {
    forall|i: int|
        0 <= i < headers.len() ==> ((#[trigger] headers[i]) matches Some(h) ==> !blank_or_comment(
            lines[i],
        ) && leading_spaces(lines[i]) <= h.indent)
}

/// Whether the lines of one span all belong to another.
pub open spec fn lies_within(inner: Span, outer: Span) -> bool {
    outer.start <= inner.start && inner.end <= outer.end
}

/// Of two blocks around one line, the one that opens later is indented deeper and lies within
/// the other.
pub proof fn law_blocks_nest(
    headers: Seq<Option<HeaderText>>,
    lines: Seq<Seq<char>>,
    outer: Span,
    inner: Span,
    line: int,
)
    requires
        headers.len() == lines.len(),
        headers_stand(headers, lines),
        opened_block(headers, lines, outer),
        opened_block(headers, lines, inner),
        covers(outer, line),
        covers(inner, line),
        outer.start < inner.start,
    ensures
        outer.indent < inner.indent,
        lies_within(inner, outer),
{
    let at = inner.start;
    assert(headers[at] is Some);
    assert(blank_or_comment(lines[at]) || leading_spaces(lines[at]) > outer.indent);
    if outer.end < inner.end {
        assert(blank_or_comment(lines[outer.end]) || leading_spaces(lines[outer.end])
            > inner.indent);
    }
}

/// The innermost block around a line lies within every block around it; and there is none
/// only where no block is around the line.
pub proof fn law_innermost_lies_within(
    headers: Seq<Option<HeaderText>>,
    lines: Seq<Seq<char>>,
    line: int,
)
    requires
        headers.len() == lines.len(),
        headers_stand(headers, lines),
    ensures
        innermost_within(blocks(headers, lines, lines.len() as int), line),
{
    let n = lines.len() as int;
    let spans = blocks(headers, lines, n);
    law_blocks(headers, lines, n);
    law_innermost(spans, line);
    if let Some(k) = innermost(spans, line) {
        assert forall|j: int|
            0 <= j < spans.len() && covers(#[trigger] spans[j], line) implies lies_within(
            spans[k],
            spans[j],
        ) by {
            if j < k {
                assert(spans[j].start < spans[k].start);
                law_blocks_nest(headers, lines, spans[j], spans[k], line);
            } else if k < j {
                assert(spans[k].start < spans[j].start);
                law_blocks_nest(headers, lines, spans[k], spans[j], line);
            }
        }
    }
}

/// Whether the name that is given for a line is that of the span around it that lies within
/// all the others, and is absent just where there is none.
pub open spec fn innermost_within(spans: Seq<Span>, line: int) -> bool {
    match innermost(spans, line) {
        Some(k) => {
            &&& 0 <= k < spans.len()
            &&& covers(spans[k], line)
            &&& enclosing(spans, line) == Some(spans[k].name)
            &&& forall|j: int|
                0 <= j < spans.len() && covers(#[trigger] spans[j], line) ==> lies_within(
                    spans[k],
                    spans[j],
                )
        },
        None => {
            &&& enclosing(spans, line) is None
            &&& forall|j: int| 0 <= j < spans.len() ==> !covers(#[trigger] spans[j], line)
        },
    }
}

proof fn lemma_headers_stand(pattern: Seq<char>, lines: Seq<Seq<char>>)
    ensures
        headers_stand(headers_in(pattern, lines), lines),
{
    assert forall|i: int| 0 <= i < lines.len() implies ((#[trigger] headers_in(
        pattern,
        lines,
    )[i]) matches Some(h) ==> !blank_or_comment(lines[i]) && leading_spaces(lines[i])
        <= h.indent) by {
        lemma_white_lead(lines[i]);
    }
}

/// In every file, the function named for a line is the one around it whose lines belong to
/// every other function around it; none is named just where no function is around the line.
/// The same holds of classes.
pub proof fn law_enclosing(lines: Seq<Seq<char>>, line: int)
    ensures
        innermost_within(functions_of(lines), line),
        innermost_within(classes_of(lines), line),
{
    lemma_headers_stand(DEF_PATTERN@, lines);
    lemma_headers_stand(CLASS_PATTERN@, lines);
    law_innermost_lies_within(headers_in(DEF_PATTERN@, lines), lines, line);
    law_innermost_lies_within(headers_in(CLASS_PATTERN@, lines), lines, line);
}

// ---- lines, in terms of their characters ---------------------------------------------------

/// A line is blank or a comment where its first character that is no white space, if there is
/// one, is `#`.
pub proof fn law_blank_or_comment(line: Seq<char>)
    ensures
        blank_or_comment(line) <==> forall|k: int|
            0 <= k < line.len() && !white(#[trigger] line[k]) && (forall|m: int|
                0 <= m < k ==> white(#[trigger] line[m])) ==> line[k] == '#',
{
    let r = law_trimmed(line);
    let t = trimmed_start(line);
    let first = r.0;
    if first < line.len() {
        assert(t[0] == line[first]);
        if !blank_or_comment(line) {
            assert(!white(line[first]) && line[first] != '#');
        } else {
            assert forall|k: int|
                0 <= k < line.len() && !white(#[trigger] line[k]) && (forall|m: int|
                    0 <= m < k ==> white(#[trigger] line[m])) implies line[k] == '#' by {
                assert(k >= first);
                if first < k {
                    assert(white(line[first]));
                }
            }
        }
    }
}

/// The header of a line is its first group, with the bytes of the white space that the line
/// starts with; a blank line or a comment has none.
pub proof fn law_header_in(pattern: Seq<char>, line: Seq<char>, h: HeaderText)
    ensures
        header_in(pattern, line) == Some(h) <==> {
            &&& captured(pattern, line, 1) == Some(h.name)
            &&& !blank_or_comment(line)
            &&& h.indent == encode_utf8(line.take(line.len() - trimmed_start(line).len())).len()
        },
{
}

/// The name given for a line is that of a block that opens above it and ends below it; of
/// these blocks it is one of the deepest indentation, and the last of them. No name is given
/// just where no block opens above the line and ends below it.
pub proof fn law_enclosing_name(spans: Seq<Span>, line: int)
    ensures
        match enclosing(spans, line) {
            Some(name) => exists|i: int|
                {
                    &&& 0 <= i < spans.len()
                    &&& (#[trigger] spans[i]).name == name
                    &&& spans[i].start < line && line < spans[i].end
                    &&& forall|j: int|
                        0 <= j < spans.len() && (#[trigger] spans[j]).start < line && line
                            < spans[j].end ==> spans[j].indent < spans[i].indent || (
                        spans[j].indent == spans[i].indent && j <= i)
                },
            None => forall|j: int|
                0 <= j < spans.len() ==> !((#[trigger] spans[j]).start < line && line
                    < spans[j].end),
        },
{
    law_innermost(spans, line);
    match innermost(spans, line) {
        Some(i) => {
            assert(covers(spans[i], line));
            assert forall|j: int|
                0 <= j < spans.len() && (#[trigger] spans[j]).start < line && line
                    < spans[j].end implies spans[j].indent < spans[i].indent || (spans[j].indent
                == spans[i].indent && j <= i) by {
                assert(covers(spans[j], line));
            }
        },
        None => {
            assert forall|j: int| 0 <= j < spans.len() implies !((#[trigger] spans[j]).start
                < line && line < spans[j].end) by {
                assert(!covers(spans[j], line));
            }
        },
    }
}

/// The patterns of functions and classes: a name behind `def` or `async def` and before a
/// bracket, and a name behind `class` and before a bracket or a colon.
pub proof fn law_header_patterns()
    ensures
        DEF_PATTERN@ == r"^\s*"@ + r"(?:async\s+)?"@ + r"def\s+"@ + r"([A-Za-z_][A-Za-z0-9_]*)"@
            + r"\s*"@ + r"\("@,
        CLASS_PATTERN@ == r"^\s*"@ + r"class\s+"@ + r"([A-Za-z_][A-Za-z0-9_]*)"@ + r"\s*"@
            + r"[\(:]"@,
{
    reveal_strlit(r"^\s*(?:async\s+)?def\s+([A-Za-z_][A-Za-z0-9_]*)\s*\(");
    reveal_strlit(r"^\s*class\s+([A-Za-z_][A-Za-z0-9_]*)\s*[\(:]");
    reveal_strlit(r"^\s*");
    reveal_strlit(r"(?:async\s+)?");
    reveal_strlit(r"def\s+");
    reveal_strlit(r"class\s+");
    reveal_strlit(r"([A-Za-z_][A-Za-z0-9_]*)");
    reveal_strlit(r"\s*");
    reveal_strlit(r"\(");
    reveal_strlit(r"[\(:]");
}

/// Each line has the header that the pattern finds in it, and the functions and classes of a
/// file are the blocks that all its lines open.
pub proof fn law_headers_in(pattern: Seq<char>, lines: Seq<Seq<char>>, i: int)
    requires
        0 <= i < lines.len(),
    ensures
        headers_in(pattern, lines).len() == lines.len(),
        headers_in(pattern, lines)[i] == header_in(pattern, lines[i]),
        functions_of(lines) == blocks(
            headers_in(DEF_PATTERN@, lines),
            lines,
            lines.len() as int,
        ),
        classes_of(lines) == blocks(
            headers_in(CLASS_PATTERN@, lines),
            lines,
            lines.len() as int,
        ),
{
}

/// There are as many blocks as lines with a header among the first `n`.
pub proof fn law_one_block_for_each_header(
    headers: Seq<Option<HeaderText>>,
    lines: Seq<Seq<char>>,
    n: int,
)
    requires
        0 <= n < lines.len(),
        headers.len() == lines.len(),
    ensures
        blocks(headers, lines, 0).len() == 0,
        headers[n] is None ==> blocks(headers, lines, n + 1) == blocks(headers, lines, n),
        headers[n] is Some ==> {
            &&& blocks(headers, lines, n + 1).drop_last() == blocks(headers, lines, n)
            &&& blocks(headers, lines, n + 1).last().start == n
            &&& blocks(headers, lines, n + 1).last().name == (headers[n]->0).name
            &&& blocks(headers, lines, n + 1).last().indent == (headers[n]->0).indent
        },
{
    if headers[n] is Some {
        assert(blocks(headers, lines, n + 1).drop_last() =~= blocks(headers, lines, n));
    }
}

} // verus!
