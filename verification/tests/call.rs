use leakwatch::pyleak::call::read_call;

#[test]
fn the_arguments_of_a_call() {
    let lines = vec!["  b=[1, 2],  # c)", "  d=\"e)\\\"f\", g='''h)", "i'''", ") + j", "k"];
    let call = read_call("a(1),", &lines, 0);
    assert_eq!(call.code, "a(1),\n  b=[1, 2],  \n  d=\", g='\n");
    assert_eq!(call.top, "a(),\n  b=[],  \n  d=\", g='\n");
    assert_eq!(call.below, 4);
}

#[test]
fn a_call_that_ends_on_its_own_line() {
    let lines = vec!["y", "z"];
    let call = read_call("x) y", &lines, 1);
    assert_eq!((call.code.as_str(), call.below), ("x", 1));
}

#[test]
fn a_call_that_nothing_closes() {
    let lines = vec!["y", "z"];
    let call = read_call("x", &lines, 1);
    assert_eq!((call.code.as_str(), call.below), ("x\nz", 2));
}

#[test]
fn a_string_that_is_not_closed_ends_with_its_line() {
    let lines = vec!["b)", "c"];
    let call = read_call("'a)", &lines, 0);
    assert_eq!((call.code.as_str(), call.below), ("'b", 1));
}
