use rtypescript::transpile;
#[test]
fn strips_generic_type_parameter_from_a_function_declaration() {
    assert_eq!(transpile("function identity<T>(x: T): T { return x; }"), "function identity(x) { return x; }");
}

#[test]
fn strips_generic_type_parameters_from_a_class_declaration() {
    assert_eq!(
        transpile("class Box<T> extends Base<T> {\n  value;\n}"),
        "class Box extends Base {\n  value;\n}"
    );
}

#[test]
fn strips_call_site_generics() {
    assert_eq!(transpile("foo<string>(x);"), "foo(x);");
    assert_eq!(transpile("const xs = identity<number>(1);"), "const xs = identity(1);");
}

#[test]
fn strips_multiple_generic_type_parameters_and_constraints() {
    assert_eq!(
        transpile("function pick<T, K extends keyof T>(obj: T, key: K) { return obj[key]; }"),
        "function pick(obj, key) { return obj[key]; }"
    );
}

#[test]
fn does_not_mangle_less_than_and_greater_than_comparisons() {
    assert_eq!(transpile("if (a < b && c > d) { x(); }"), "if (a < b && c > d) { x(); }");
    assert_eq!(transpile("const ok = a < b;"), "const ok = a < b;");
}

#[test]
fn does_not_mangle_a_generic_looking_comparison_chain_without_a_call() {
    assert_eq!(transpile("const r = a < b > c;"), "const r = a < b > c;");
}
