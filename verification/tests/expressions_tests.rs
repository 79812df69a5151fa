use rtypescript::expressions::strip_expression_type_syntax;
use rtypescript::transpile::token_text as tt;
use rtypescript::{tokenize, CollectingSink};
fn strip_and_render(src: &str) -> String {
    let mut sink = CollectingSink::default();
    tokenize(src, &mut sink);
    let stripped = strip_expression_type_syntax(&sink.tokens);
    stripped.iter().map(tt).collect()
}

#[test]
fn strips_postfix_non_null_assertion_after_identifier() {
    assert_eq!(strip_and_render("foo!.bar();"), "foo.bar();");
}

#[test]
fn strips_non_null_assertion_after_call_and_index() {
    assert_eq!(strip_and_render("getFoo()!.bar;"), "getFoo().bar;");
    assert_eq!(strip_and_render("arr[0]!.length;"), "arr[0].length;");
}

#[test]
fn does_not_strip_prefix_logical_not() {
    assert_eq!(strip_and_render("if (!foo) { bar(); }"), "if (!foo) { bar(); }");
}

#[test]
fn does_not_confuse_not_equal_operators() {
    assert_eq!(strip_and_render("if (a !== b) { c(); }"), "if (a !== b) { c(); }");
    assert_eq!(strip_and_render("if (a != b) { c(); }"), "if (a != b) { c(); }");
}

#[test]
fn strips_as_type_cast() {
    assert_eq!(strip_and_render("const x = foo as Bar;"), "const x = foo ;");
}

#[test]
fn strips_as_const_assertion() {
    assert_eq!(strip_and_render("const x = [1, 2] as const;"), "const x = [1, 2] ;");
}

#[test]
fn does_not_strip_as_used_as_a_plain_identifier() {
    assert_eq!(strip_and_render("const as = 1;"), "const as = 1;");
}

#[test]
fn leaves_optional_chaining_and_nullish_coalescing_untouched() {
    assert_eq!(strip_and_render("const x = foo?.bar ?? baz;"), "const x = foo?.bar ?? baz;");
}

#[test]
fn leaves_optional_chaining_call_untouched() {
    assert_eq!(strip_and_render("foo?.bar?.();"), "foo?.bar?.();");
}
