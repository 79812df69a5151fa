use rtypescript::transpile;
#[test]
fn expands_a_simple_numeric_enum_with_forward_and_reverse_mapping() {
    let js = transpile("enum Color { Red, Green, Blue }");
    assert_eq!(
        js,
        "var Color;\n(function (Color) {\n    Color[Color[\"Red\"] = 0] = \"Red\";\n    Color[Color[\"Green\"] = 1] = \"Green\";\n    Color[Color[\"Blue\"] = 2] = \"Blue\";\n})(Color || (Color = {}));"
    );
}

#[test]
fn expands_a_numeric_enum_with_explicit_and_continued_values() {
    let js = transpile("enum Status { Ok = 1, Retry, Fail = 10 }");
    assert_eq!(
        js,
        "var Status;\n(function (Status) {\n    Status[Status[\"Ok\"] = 1] = \"Ok\";\n    Status[Status[\"Retry\"] = 2] = \"Retry\";\n    Status[Status[\"Fail\"] = 10] = \"Fail\";\n})(Status || (Status = {}));"
    );
}

#[test]
fn expands_a_string_enum_without_reverse_mapping() {
    let js = transpile("enum Direction { Up = \"UP\", Down = \"DOWN\" }");
    assert_eq!(
        js,
        "var Direction;\n(function (Direction) {\n    Direction[\"Up\"] = \"UP\";\n    Direction[\"Down\"] = \"DOWN\";\n})(Direction || (Direction = {}));"
    );
}

#[test]
fn strips_export_and_const_modifiers_from_an_enum_declaration() {
    let js = transpile("export const enum Flag { None, One }");
    assert_eq!(
        js,
        "var Flag;\n(function (Flag) {\n    Flag[Flag[\"None\"] = 0] = \"None\";\n    Flag[Flag[\"One\"] = 1] = \"One\";\n})(Flag || (Flag = {}));"
    );
}

#[test]
fn handles_a_computed_member_expression_with_forward_mapping_only() {
    let js = transpile("enum Bits { A = 1 << 0, B = 1 << 1 }");
    assert_eq!(
        js,
        "var Bits;\n(function (Bits) {\n    Bits[\"A\"] = 1 << 0;\n    Bits[\"B\"] = 1 << 1;\n})(Bits || (Bits = {}));"
    );
}
