use rtypescript::transpile;
#[test]
fn strips_visibility_modifiers_from_a_constructor_parameter_without_property_shorthand() {
    assert_eq!(
        transpile("class Point {\n  constructor(x: number, y: number) {\n    this.sum = x + y;\n  }\n}"),
        "class Point {\n  constructor(x, y) {\n    this.sum = x + y;\n  }\n}"
    );
}

#[test]
fn expands_constructor_parameter_properties_into_this_assignments() {
    let ts = "class Point {\n  constructor(public x: number, private y: string) {\n    console.log(x);\n  }\n}";
    let js = transpile(ts);
    assert_eq!(
        js,
        "class Point {\n  constructor(x, y) { this.x = x; this.y = y;\n    console.log(x);\n  }\n}"
    );
}

#[test]
fn expands_a_readonly_only_parameter_property() {
    assert_eq!(
        transpile("class C {\n  constructor(readonly id: string) {}\n}"),
        "class C {\n  constructor(id) { this.id = id;}\n}"
    );
}

#[test]
fn mixes_parameter_properties_with_plain_parameters() {
    let ts = "class C {\n  constructor(public a: number, b: number) {\n    this.b = b;\n  }\n}";
    assert_eq!(
        transpile(ts),
        "class C {\n  constructor(a, b) { this.a = a;\n    this.b = b;\n  }\n}"
    );
}

#[test]
fn strips_class_field_modifiers_and_type_annotations() {
    let ts = "class Foo {\n  private x: number;\n  public y: string = \"a\";\n  readonly z: boolean = true;\n}";
    assert_eq!(transpile(ts), "class Foo {\n  x;\n  y = \"a\";\n  z = true;\n}");
}

#[test]
fn strips_optional_and_definite_assignment_markers_on_class_fields() {
    assert_eq!(
        transpile("class Foo {\n  x?: number;\n  y!: string;\n}"),
        "class Foo {\n  x;\n  y;\n}"
    );
}

#[test]
fn leaves_static_modifier_untouched_since_it_is_real_javascript() {
    assert_eq!(transpile("class Foo {\n  static count = 0;\n}"), "class Foo {\n  static count = 0;\n}");
}

#[test]
fn does_not_touch_method_bodies_that_merely_contain_colons() {
    let ts = "class Foo {\n  bar() {\n    const o = { a: 1 };\n    return true ? 1 : 2;\n  }\n}";
    assert_eq!(transpile(ts), ts);
}
