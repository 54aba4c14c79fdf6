use leakwatch::pyleak::statement::{find_rebindings, find_statements, Opens};

#[test]
fn statements_begin_outside_brackets_and_strings() {
    let lines = vec![
        "f(a,",
        "  b=1)",
        "x = '''",
        "y = 2",
        "'''; z = 3",
        "# note",
        "",
        "u = 1 + \\",
        "    2",
        "v = ')'",
        ") w = 4",
        "t = 5  # (",
        "s = 6",
    ];
    let found = find_statements(&lines).expect("the patterns compile");
    let fresh: Vec<bool> = found.iter().map(|s| s.fresh).collect();
    assert_eq!(
        fresh,
        vec![
            true, false, true, false, false, false, false, true, false, true, true, true, true
        ]
    );
    assert_eq!(found[0].code, "f(a,\n");
    assert_eq!(found[0].top, "f(");
    assert_eq!(found[1].top, ")\n");
    assert_eq!(found[4].code, "; z = 3\n");
    assert_eq!(found[11].code, "t = 5  \n");
}

#[test]
fn lines_that_open_functions_and_classes() {
    let lines = vec!["class A:", "    async def f():", "\tx = 1"];
    let found = find_statements(&lines).unwrap();
    assert_eq!((found[0].opens, found[0].indent), (Some(Opens::Class), 0));
    assert_eq!((found[1].opens, found[1].indent), (Some(Opens::Function), 4));
    assert_eq!((found[2].opens, found[2].indent), (None, 1));
}

#[test]
fn names_of_the_module_are_bound_at_module_level_or_where_declared_global() {
    let lines = vec![
        "C = 1",
        "if x:",
        "    C = 2",
        "def f():",
        "    C = 3",
        "def g():",
        "    global C",
        "    if y:",
        "        C = 4",
        "    class A:",
        "        C = 5",
        "h(",
        "    C = 6)",
    ];
    let found = find_statements(&lines).unwrap();
    let binds: Vec<bool> = lines.iter().map(|l| l.contains("C = ")).collect();
    let globals: Vec<bool> = lines.iter().map(|l| l.contains("global")).collect();
    let rebound = find_rebindings(&found, &binds, &globals);
    let at: Vec<usize> = (0..lines.len()).filter(|j| rebound[*j]).collect();
    assert_eq!(at, vec![0, 2, 8]);
}
