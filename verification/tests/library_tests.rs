use rtypescript::enums::{counter_after_number, render_enum, EnumMember, Init};
use rtypescript::interfaces::try_consume_type_alias;
use rtypescript::transpile::token_text;
use rtypescript::{strip_type_annotations, tokenize, transpile, CollectingSink, Token, TokenSink, Tokenizer};

fn lex(src: &str) -> Vec<Token> {
    let mut sink = CollectingSink::default();
    tokenize(src, &mut sink);
    sink.tokens
}

fn render(tokens: &[Token]) -> String {
    tokens.iter().map(token_text).collect()
}

#[test]
fn lexing_loses_no_text() {
    let inputs = [
        "let x: number = 1; // c\n/* b */ y",
        "\"abc",
        "/* never closed",
        "'a\\",
        "`t\\`x` + 'q\\'r'",
        "1. 2.5 3.4.5",
        "a>=b && c...d ?? e?.f",
        "日本語 = é1 + $x_1;\t\r\n",
        "//",
        "",
        "@#~ ^ \\",
    ];
    for src in inputs {
        assert_eq!(render(&lex(src)), src, "input {:?}", src);
    }
}

#[test]
fn lexing_ends_with_a_single_eof_after_non_empty_tokens() {
    for src in ["", "a", "let x = 1;", "/* x */\n"] {
        let tokens = lex(src);
        assert_eq!(tokens.last(), Some(&Token::Eof));
        for t in &tokens[..tokens.len() - 1] {
            assert_ne!(t, &Token::Eof);
            assert!(!token_text(t).is_empty());
        }
    }
}

#[test]
fn lexes_edge_cases_of_literals_and_comments() {
    assert_eq!(lex("\"ab"), vec![Token::StringLiteral("\"ab".to_string()), Token::Eof]);
    assert_eq!(lex("'a\\'b'"), vec![Token::StringLiteral("'a\\'b'".to_string()), Token::Eof]);
    assert_eq!(lex("/* a"), vec![Token::Comment("/* a".to_string()), Token::Eof]);
    assert_eq!(
        lex("1.2.3"),
        vec![Token::Number("1.2".to_string()), Token::Punctuator(".".to_string()), Token::Number("3".to_string()), Token::Eof]
    );
    assert_eq!(lex("1."), vec![Token::Number("1.".to_string()), Token::Eof]);
    assert_eq!(lex("// x"), vec![Token::Comment("// x".to_string()), Token::Eof]);
    assert_eq!(
        lex("a/b"),
        vec![
            Token::Identifier("a".to_string()),
            Token::Punctuator("/".to_string()),
            Token::Identifier("b".to_string()),
            Token::Eof
        ]
    );
}

#[test]
fn lexes_unicode_identifiers_and_whitespace() {
    assert_eq!(
        lex("é1\t\u{3000}x"),
        vec![
            Token::Identifier("é1".to_string()),
            Token::Whitespace("\t\u{3000}".to_string()),
            Token::Identifier("x".to_string()),
            Token::Eof
        ]
    );
}

#[test]
fn every_multi_char_punctuator_is_one_token() {
    for op in ["=>", "===", "!==", "==", "!=", "<=", ">=", "&&", "||", "??", "?.", "...", "+=", "-=", "*=", "/="] {
        assert_eq!(lex(op), vec![Token::Punctuator(op.to_string()), Token::Eof], "op {}", op);
    }
    assert_eq!(
        lex("a=>=b"),
        vec![
            Token::Identifier("a".to_string()),
            Token::Punctuator("=>".to_string()),
            Token::Punctuator("=".to_string()),
            Token::Identifier("b".to_string()),
            Token::Eof
        ]
    );
}

struct Counter {
    count: usize,
}

impl TokenSink for Counter {
    fn process_token(&mut self, _token: Token) {
        self.count += 1;
    }
}

#[test]
fn any_sink_receives_every_token() {
    let mut counter = Counter { count: 0 };
    tokenize("let x = 1;", &mut counter);
    assert_eq!(counter.count, 9);
    let _cursor = Tokenizer::new("let x");
}

#[test]
fn plain_javascript_comes_out_unchanged() {
    let js = "function f(a, b) {\n  // sum\n  return a + b * 2;\n}\nconst o = f(1, 2) + \"s\";\n";
    assert_eq!(transpile(js), js);
}

#[test]
fn annotation_removal_stops_at_eof() {
    let tokens = vec![
        Token::Identifier("a".to_string()),
        Token::Eof,
        Token::Identifier("b".to_string()),
    ];
    assert_eq!(strip_type_annotations(&tokens), "a");
}

#[test]
fn removes_optional_parameter_markers_but_not_conditionals() {
    assert_eq!(transpile("function f(a?: number, b?) { return a ? b : 0; }"), "function f(a, b) { return a ? b : 0; }");
}

#[test]
fn keeps_a_colon_after_parentheses_that_is_no_return_type() {
    assert_eq!(transpile("const r = (a) ? (b) : c;"), "const r = (a) ? (b) : c;");
}

#[test]
fn keeps_comments_and_whitespace_around_removed_annotations() {
    assert_eq!(transpile("let x /* n */: number /* t */ = 1;"), "let x /* n */ = 1;");
}

#[test]
fn enum_values_count_on_only_from_integer_literals() {
    assert_eq!(
        transpile("enum E { A = 1.5, B }"),
        "var E;\n(function (E) {\n    E[E[\"A\"] = 1.5] = \"A\";\n    E[E[\"B\"] = 0] = \"B\";\n})(E || (E = {}));"
    );
}

#[test]
fn enum_values_count_on_past_the_largest_i64() {
    assert_eq!(
        transpile("enum E { A = 9223372036854775807, B }"),
        "var E;\n(function (E) {\n    E[E[\"A\"] = 9223372036854775807] = \"A\";\n    E[E[\"B\"] = 9223372036854775808] = \"B\";\n})(E || (E = {}));"
    );
}

#[test]
fn enum_computed_member_text_is_trimmed() {
    assert_eq!(
        transpile("enum E { A =   x  +  1   }"),
        "var E;\n(function (E) {\n    E[\"A\"] = x  +  1;\n})(E || (E = {}));"
    );
}

#[test]
fn empty_enum_expands_to_an_empty_object() {
    assert_eq!(transpile("enum E {}"), "var E;\n(function (E) {\n})(E || (E = {}));");
}

#[test]
fn enum_with_a_non_identifier_member_is_left_alone() {
    assert_eq!(transpile("enum E { 1 }"), "enum E { 1 }");
}

#[test]
fn type_alias_without_semicolon_runs_to_the_end() {
    assert_eq!(transpile("const a = 1;\ntype T = number"), "const a = 1;\n");
}

#[test]
fn interface_without_a_body_is_left_alone() {
    assert_eq!(transpile("interface Foo"), "interface Foo");
}

#[test]
fn modifier_words_outside_constructors_are_ordinary_names() {
    assert_eq!(transpile("f(readonly);"), "f(readonly);");
    assert_eq!(transpile("g(a, public);"), "g(a, public);");
    assert_eq!(transpile("constructor(public x);"), "constructor(public x);");
    assert_eq!(
        transpile("class C {\n  m(readonly) {}\n}"),
        "class C {\n  m(readonly) {}\n}"
    );
}

#[test]
fn non_null_assertions_after_keywords_are_logical_nots() {
    assert_eq!(transpile("return !x;"), "return !x;");
    assert_eq!(transpile("a!;"), "a;");
}

#[test]
fn cast_to_an_array_or_union_type_is_removed() {
    assert_eq!(transpile("const x = y as A|B;"), "const x = y ;");
    assert_eq!(transpile("const x = y as ns.T[];"), "const x = y ;");
}

#[test]
fn annotation_removal_renders_streams_without_colons_or_question_marks_unchanged() {
    let src = "let a = [1, 2];\nf(a) /* c */ + g(\"x\");\n";
    assert_eq!(strip_type_annotations(&lex(src)), src);
}

#[test]
fn expression_pass_leaves_streams_without_bang_or_as_unchanged() {
    let tokens = lex("const y = f(x)[0] + z;");
    assert_eq!(rtypescript::expressions::strip_expression_type_syntax(&tokens), tokens);
}

#[test]
fn expression_pass_only_removes_tokens() {
    let tokens = lex("a!.b as T; c as U[]");
    let out = rtypescript::expressions::strip_expression_type_syntax(&tokens);
    let mut k = 0;
    for t in &out {
        while tokens[k] != *t {
            k += 1;
        }
        k += 1;
    }
    assert_eq!(render(&out), "a.b ; c ");
}

#[test]
fn import_renames_keep_their_as() {
    assert_eq!(
        transpile("import { a as b } from \"m\";"),
        "import { a as b } from \"m\";"
    );
    assert_eq!(
        transpile("import d, { a as b } from \"m\";"),
        "import d, { a as b } from \"m\";"
    );
    assert_eq!(
        transpile("import type { A as B } from \"m\";"),
        "import type { A as B } from \"m\";"
    );
    assert_eq!(transpile("export { a as b };"), "export { a  };");
    assert_eq!(transpile("const y = x as T;"), "const y = x ;");
}

#[test]
fn a_union_cast_is_removed_whole() {
    assert_eq!(transpile("const y = x as A | B;"), "const y = x ;");
    assert_eq!(transpile("const y = x as A&B;"), "const y = x ;");
    assert_eq!(transpile("const y = x as A & B;"), "const y = x  & B;");
    assert_eq!(transpile("const y = x as A|(B);"), "const y = x (B);");
    assert_eq!(transpile("const y = x as A | 0;"), "const y = x  | 0;");
}

#[test]
fn declaration_generics_that_do_not_look_like_types_stay() {
    let js = transpile("function f<T = 1>(x) {}");
    assert!(js.contains("<T = 1>"));
    assert_eq!(transpile("function f<T = U>(x) {}"), "function f(x) {}");
}

#[test]
fn counter_after_a_number_member() {
    assert_eq!(counter_after_number(Some(41), 3), 42);
    assert_eq!(counter_after_number(Some(i64::MAX), 0), 9223372036854775808);
    assert_eq!(counter_after_number(None, 7), 7);
}

#[test]
fn lexing_takes_longest_punctuators_and_maximal_runs() {
    let tokens = lex("x  +=1.25===y");
    assert_eq!(
        tokens,
        vec![
            Token::Identifier("x".to_string()),
            Token::Whitespace("  ".to_string()),
            Token::Punctuator("+=".to_string()),
            Token::Number("1.25".to_string()),
            Token::Punctuator("===".to_string()),
            Token::Identifier("y".to_string()),
            Token::Eof,
        ]
    );
}

#[test]
fn implicit_enum_values_count_on_from_numbers() {
    assert_eq!(
        transpile("enum E { A, B = 5, C, D = \"d\", F }"),
        "var E;\n(function (E) {\n    E[E[\"A\"] = 0] = \"A\";\n    E[E[\"B\"] = 5] = \"B\";\n    E[E[\"C\"] = 6] = \"C\";\n    E[\"D\"] = \"d\";\n    E[E[\"F\"] = 7] = \"F\";\n})(E || (E = {}));"
    );
}

#[test]
fn rendering_an_enum_counts_implicit_values() {
    let members = vec![
        EnumMember { name: "A".to_string(), init: Init::Absent },
        EnumMember { name: "B".to_string(), init: Init::Number("5".to_string()) },
        EnumMember { name: "C".to_string(), init: Init::Absent },
    ];
    assert_eq!(
        render_enum("E", &members),
        "var E;\n(function (E) {\n    E[E[\"A\"] = 0] = \"A\";\n    E[E[\"B\"] = 5] = \"B\";\n    E[E[\"C\"] = 6] = \"C\";\n})(E || (E = {}));"
    );
}

#[test]
fn a_type_alias_ends_after_its_top_level_semicolon() {
    let tokens = lex("type A = { x: number };");
    assert_eq!(try_consume_type_alias(&tokens, 0), Some(15));
    let tokens = lex("type P<T> = (a: T) => void; x");
    assert_eq!(render(&tokens[..try_consume_type_alias(&tokens, 0).unwrap()]), "type P<T> = (a: T) => void;");
    let tokens = lex("type A = B");
    assert_eq!(try_consume_type_alias(&tokens, 0), Some(tokens.len() - 1));
    let tokens = lex("type = 1;");
    assert_eq!(try_consume_type_alias(&tokens, 0), None);
}
