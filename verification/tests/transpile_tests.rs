use rtypescript::transpile;
#[test]
fn strips_a_simple_variable_declaration_annotation() {
    assert_eq!(transpile("let x: number = 1;"), "let x = 1;");
}

#[test]
fn strips_const_and_var_annotations_too() {
    assert_eq!(transpile("const x: string = \"a\";"), "const x = \"a\";");
    assert_eq!(transpile("var x: boolean = true;"), "var x = true;");
}

#[test]
fn strips_function_parameter_annotations() {
    assert_eq!(
        transpile("function add(a: number, b: number) { return a + b; }"),
        "function add(a, b) { return a + b; }"
    );
}

#[test]
fn strips_function_return_type_annotation() {
    assert_eq!(
        transpile("function add(a: number, b: number): number { return a + b; }"),
        "function add(a, b) { return a + b; }"
    );
}

#[test]
fn strips_arrow_function_param_and_return_type_annotations() {
    assert_eq!(transpile("const f = (a: number): number => a + 1;"), "const f = (a) => a + 1;");
}

#[test]
fn strips_array_and_function_type_annotations_by_tracking_bracket_depth() {
    assert_eq!(transpile("let xs: number[] = [1, 2];"), "let xs = [1, 2];");
    assert_eq!(transpile("let cb: (x: number) => void = f;"), "let cb = f;");
}

#[test]
fn leaves_plain_javascript_untouched() {
    let js = "function add(a, b) { return a + b; }";
    assert_eq!(transpile(js), js);
}

#[test]
fn does_not_strip_object_literal_or_ternary_colons() {
    assert_eq!(transpile("const o = { a: 1, b: 2 };"), "const o = { a: 1, b: 2 };");
    assert_eq!(transpile("const r = cond ? a : b;"), "const r = cond ? a : b;");
}

#[test]
fn preserves_whitespace_and_comments() {
    let ts = "let x: number = 1; // keep me\n";
    assert_eq!(transpile(ts), "let x = 1; // keep me\n");
}
