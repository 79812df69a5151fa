use rtypescript::transpile;
#[test]
fn strips_a_simple_interface_declaration() {
    assert_eq!(transpile("interface Foo { x: number }\nconst y = 1;"), "\nconst y = 1;");
}

#[test]
fn strips_an_exported_interface_with_extends_and_generics() {
    let ts = "export interface Box<T> extends Container<T> {\n  value: T;\n}\nconst z = 1;";
    assert_eq!(transpile(ts), "\nconst z = 1;");
}

#[test]
fn strips_a_type_alias_with_object_type_and_semicolons_inside() {
    let ts = "type Foo = { a: number; b: string };\nconst z = 1;";
    assert_eq!(transpile(ts), "\nconst z = 1;");
}

#[test]
fn strips_a_generic_type_alias() {
    assert_eq!(transpile("type Box<T> = { value: T };\nlet a = 1;"), "\nlet a = 1;");
}

#[test]
fn does_not_touch_a_plain_variable_literally_named_type_or_interface() {
    assert_eq!(transpile("type.push(1);"), "type.push(1);");
}
