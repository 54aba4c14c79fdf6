use leakwatch::pyleak::scanner::{
    classes_at, enclosing_class, enclosing_function, functions_at, indent_of, innermost_function,
    is_blank_or_comment, parse_classes, parse_functions, try_parse_classes, try_parse_functions, FuncSpan, Header,
};

fn span(name: &str, indent: usize, start: usize, end: usize) -> FuncSpan {
    FuncSpan { name: name.to_string(), indent, start, end }
}

#[test]
fn indentation_counts_spaces_only() {
    assert_eq!(indent_of("    x"), 4);
    assert_eq!(indent_of("\tx"), 0);
    assert_eq!(indent_of("   "), 3);
}

#[test]
fn blank_lines_and_comments() {
    assert!(is_blank_or_comment(""));
    assert!(is_blank_or_comment(" \t "));
    assert!(is_blank_or_comment("   # note"));
    assert!(!is_blank_or_comment("x = 1 # note"));
}

#[test]
fn functions_end_where_the_indentation_falls_back() {
    let lines = vec![
        "import os",
        "def outer(a):",
        "    x = 1",
        "",
        "# a comment at the margin",
        "    def inner():",
        "        return x",
        "    return inner",
        "y = 2",
        "def last( ):",
        "    pass",
    ];
    let spans = try_parse_functions(&lines).expect("the pattern compiles");
    assert_eq!(spans.len(), 3);
    assert_eq!(format!("{:?}", spans[0]), format!("{:?}", span("outer", 0, 1, 8)));
    assert_eq!(format!("{:?}", spans[1]), format!("{:?}", span("inner", 4, 5, 7)));
    assert_eq!(format!("{:?}", spans[2]), format!("{:?}", span("last", 0, 9, 11)));
    assert_eq!(format!("{:?}", parse_functions(&lines)), format!("{spans:?}"));
}

#[test]
fn white_space_before_a_keyword_is_counted_in_bytes() {
    let lines = vec!["\u{3000}def f():", "  x"];
    let spans = try_parse_functions(&lines).unwrap();
    assert_eq!(format!("{spans:?}"), format!("{:?}", vec![span("f", 3, 0, 1)]));
}

#[test]
fn lines_that_open_nothing() {
    let lines = vec!["define(x)", "xdef f():", "def 1f():", "class", "# def f():", "async f():"];
    assert_eq!(try_parse_functions(&lines).unwrap().len(), 0);
    assert_eq!(try_parse_classes(&lines).unwrap().len(), 0);
}

#[test]
fn async_functions_are_functions() {
    let lines = vec!["async def f():", "    pass", "    async  def g(x):", "        pass"];
    let spans = try_parse_functions(&lines).unwrap();
    assert_eq!(format!("{spans:?}"), format!("{:?}", vec![span("f", 0, 0, 4), span("g", 4, 2, 4)]));
}

#[test]
fn the_innermost_function_lies_within_the_others() {
    let lines = vec![
        "def a():",
        "    def b():",
        "        def c():",
        "            x",
        "        y",
        "    z",
    ];
    let spans = try_parse_functions(&lines).unwrap();
    for line in 0..lines.len() {
        let around: Vec<&FuncSpan> =
            spans.iter().filter(|s| s.start < line && line < s.end).collect();
        match innermost_function(&spans, line) {
            Some(i) => {
                for other in around {
                    assert!(other.start <= spans[i].start && spans[i].end <= other.end);
                }
            }
            None => assert!(around.is_empty()),
        }
    }
    assert_eq!(enclosing_function(&spans, 3), Some("c".to_string()));
    assert_eq!(enclosing_function(&spans, 4), Some("b".to_string()));
}

#[test]
fn classes_with_and_without_bases() {
    let lines = vec!["class A:", "    def f(self):", "        pass", "class B(A):", "    pass"];
    let spans = try_parse_classes(&lines).unwrap();
    assert_eq!(spans.len(), 2);
    assert_eq!((spans[0].name.as_str(), spans[0].start, spans[0].end), ("A", 0, 3));
    assert_eq!((spans[1].name.as_str(), spans[1].start, spans[1].end), ("B", 3, 5));
    assert_eq!(format!("{:?}", parse_classes(&lines)), format!("{spans:?}"));
}

#[test]
fn blocks_from_given_headers() {
    let lines = vec!["a", "  b", "c"];
    let headers = vec![Some(Header { indent: 0, name: "a".to_string() }), None, None];
    let funcs = functions_at(&headers, &lines);
    assert_eq!(format!("{funcs:?}"), format!("{:?}", vec![span("a", 0, 0, 2)]));
    let classes = classes_at(&headers, &lines);
    assert_eq!(classes.len(), 1);
    assert_eq!((classes[0].start, classes[0].end), (0, 2));
}

#[test]
fn the_innermost_function_is_the_deepest_one() {
    let spans = vec![span("outer", 0, 0, 10), span("inner", 4, 2, 6)];
    assert_eq!(enclosing_function(&spans, 4), Some("inner".to_string()));
    assert_eq!(enclosing_function(&spans, 7), Some("outer".to_string()));
    assert_eq!(enclosing_function(&spans, 2), Some("outer".to_string()));
    assert_eq!(enclosing_function(&spans, 0), None);
    assert_eq!(enclosing_function(&spans, 10), None);
}

#[test]
fn of_two_equally_deep_functions_the_later_one_counts() {
    let spans = vec![span("first", 4, 0, 10), span("second", 4, 1, 10)];
    assert_eq!(enclosing_function(&spans, 5), Some("second".to_string()));
}

#[test]
fn the_class_around_a_line() {
    let lines = vec!["class A:", "    def __del__(self):", "        pass", "x = 1"];
    let spans = try_parse_classes(&lines).unwrap();
    assert_eq!(enclosing_class(&spans, 1), Some("A".to_string()));
    assert_eq!(enclosing_class(&spans, 3), None);
}
