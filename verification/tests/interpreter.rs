use minilisp::eval::{Environment, Value, eval_expression, eval_with_fuel};
use minilisp::parser::parse_expression;
use minilisp::tokenizer::{TokenType, paren_balance, tokenize};

fn run(src: &str, env: &mut Environment, out: &mut Vec<String>) -> Result<Value, String> {
    let mut toks = tokenize(&src.to_string());
    let parsed = parse_expression(&mut toks).expect("parse failed");
    eval_expression(&parsed, env, out)
}

fn eval_one(src: &str) -> Result<Value, String> {
    let mut env = Environment::new();
    let mut out = Vec::new();
    run(src, &mut env, &mut out)
}

fn int_of(v: &Value) -> i64 {
    match v {
        Value::Integer(n) => *n,
        other => panic!("expected an integer, got {:?}", other),
    }
}

fn bits_of(v: &Value) -> u64 {
    match v {
        Value::Number(b) => *b,
        other => panic!("expected a number, got {:?}", other),
    }
}

fn bool_of(v: &Value) -> bool {
    match v {
        Value::Bool(b) => *b,
        other => panic!("expected a boolean, got {:?}", other),
    }
}

#[test]
fn literal_round_trip_texts() {
    for text in ["42", "-7", "0", "#t", "#f", "()", "#\\a", "#\\Z"] {
        let v = eval_one(text).expect("literal evaluation failed");
        assert_eq!(v.render(), text);
    }
}

#[test]
fn arithmetic_promotion_int() {
    let v = eval_one("(+ 1 2)").unwrap();
    assert_eq!(int_of(&v), 3);
}

#[test]
fn arithmetic_promotion_float() {
    let v = eval_one("(+ 1 2.0)").unwrap();
    assert_eq!(bits_of(&v), 3.0f64.to_bits());
}

#[test]
fn arithmetic_identities() {
    assert_eq!(int_of(&eval_one("(*)").unwrap()), 1);
    assert_eq!(int_of(&eval_one("(+)").unwrap()), 0);
}

#[test]
fn arithmetic_sub_div() {
    assert_eq!(int_of(&eval_one("(- 10 3 2)").unwrap()), 5);
    assert_eq!(int_of(&eval_one("(- 4)").unwrap()), -4);
    assert_eq!(bits_of(&eval_one("(/ 1 2)").unwrap()), 0.5f64.to_bits());
    assert_eq!(bits_of(&eval_one("(/ 2.0)").unwrap()), 0.5f64.to_bits());
    assert_eq!(bits_of(&eval_one("(* 2.5 4)").unwrap()), 10.0f64.to_bits());
}

#[test]
fn chained_comparison() {
    assert!(bool_of(&eval_one("(< 1 2 3)").unwrap()));
    assert!(!bool_of(&eval_one("(< 1 3 2)").unwrap()));
    assert!(bool_of(&eval_one("(< 5)").unwrap()));
    // A zero running value poisons the chain even though 0 < 1.
    assert!(!bool_of(&eval_one("(< 0 1)").unwrap()));
}

#[test]
fn numeric_equality() {
    assert!(bool_of(&eval_one("(= 2 2 2)").unwrap()));
    assert!(!bool_of(&eval_one("(= 2 3)").unwrap()));
    assert!(bool_of(&eval_one("(= 2 2.0)").unwrap()));
}

#[test]
fn int_predicate() {
    assert!(bool_of(&eval_one("(int 3 4.0)").unwrap()));
    assert!(!bool_of(&eval_one("(int 3.5)").unwrap()));
}

#[test]
fn not_builtin() {
    assert!(!bool_of(&eval_one("(not #t)").unwrap()));
    assert!(bool_of(&eval_one("(not #f)").unwrap()));
    assert!(!bool_of(&eval_one("(not 5)").unwrap()));
}

#[test]
fn closure_captures_at_construction() {
    let mut env = Environment::new();
    let mut out = Vec::new();
    run("(define x 5)", &mut env, &mut out).unwrap();
    run("(define f (lambda (y) (+ x y)))", &mut env, &mut out).unwrap();
    let before = run("(f 3)", &mut env, &mut out).unwrap();
    assert_eq!(int_of(&before), 8);
    run("(define x 10)", &mut env, &mut out).unwrap();
    let after = run("(f 3)", &mut env, &mut out).unwrap();
    assert_eq!(int_of(&after), 8);
}

#[test]
fn list_operations() {
    assert_eq!(int_of(&eval_one("(car (cons 1 2))").unwrap()), 1);
    assert_eq!(int_of(&eval_one("(cdr (cons 1 2))").unwrap()), 2);
    assert!(bool_of(&eval_one("(null? (list))").unwrap()));
    let v = eval_one("(list->string (string->list \"hi\"))").unwrap();
    match v {
        Value::String(s) => assert_eq!(s, "hi"),
        other => panic!("expected a string, got {:?}", other),
    }
}

#[test]
fn quoted_list_renders_as_pairs() {
    let v = eval_one("'(1 2)").unwrap();
    assert_eq!(v.render(), "(1 . (2 . ()))");
}

#[test]
fn unbound_symbol_error_mentions_name() {
    let e = eval_one("(foo 1)").unwrap_err();
    assert!(e.contains("foo"));
    assert_eq!(e, "Symbol foo not found!");
}

#[test]
fn calling_a_number_is_an_error() {
    let e = eval_one("(1 2 3)").unwrap_err();
    assert!(e.contains("1"));
    assert!(e.contains("not a function"));
    assert_eq!(e, "1 is an integer, not a function!");
}

#[test]
fn car_of_non_pair_is_an_error() {
    let e = eval_one("(car 5)").unwrap_err();
    assert_eq!(e, "5 not a pair!");
}

#[test]
fn unbound_variable_error() {
    let e = eval_one("nowhere").unwrap_err();
    assert_eq!(e, "Variable nowhere not in environment!");
}

#[test]
fn non_boolean_condition_is_an_error() {
    let e = eval_one("(if 1 2 3)").unwrap_err();
    assert!(e.contains("condition"));
}

#[test]
fn branches_of_if() {
    assert_eq!(int_of(&eval_one("(if #t 1 2)").unwrap()), 1);
    assert_eq!(int_of(&eval_one("(if #f 1 2)").unwrap()), 2);
}

#[test]
fn immediate_lambda_application() {
    assert_eq!(int_of(&eval_one("((lambda (x) x) 5)").unwrap()), 5);
}

#[test]
fn too_many_arguments_is_an_error() {
    let e = eval_one("((lambda (x) 42) 1 2)").unwrap_err();
    assert_eq!(e, "Too many arguments to function!");
}

#[test]
fn missing_arguments_stay_unbound() {
    // A parameter without an argument stays symbolic; using it fails only
    // then.
    let e = eval_one("((lambda (x y) (+ x y)) 1)").unwrap_err();
    assert!(e.contains("y"));
}

#[test]
fn recursion_through_late_binding() {
    let mut env = Environment::new();
    let mut out = Vec::new();
    run(
        "(define fact (lambda (n) (if (= n 0) 1 (* n (fact (- n 1))))))",
        &mut env,
        &mut out,
    )
    .unwrap();
    let v = run("(fact 5)", &mut env, &mut out).unwrap();
    assert_eq!(int_of(&v), 120);
}

#[test]
fn recursion_depth_is_bounded() {
    let mut env = Environment::new();
    let mut out = Vec::new();
    run("(define spin (lambda (x) (spin x)))", &mut env, &mut out).unwrap();
    // A small explicit budget keeps the test light; the default is larger.
    let mut toks = tokenize(&"(spin 1)".to_string());
    let parsed = parse_expression(&mut toks).unwrap();
    let e = eval_with_fuel(&parsed, &mut env, &mut out, 50).unwrap_err();
    assert_eq!(e, "Evaluation depth limit exceeded!");
}

#[test]
fn default_budget_allows_deep_recursion() {
    let mut env = Environment::new();
    let mut out = Vec::new();
    run(
        "(define count (lambda (n) (if (= n 0) 0 (count (- n 1)))))",
        &mut env,
        &mut out,
    )
    .unwrap();
    let v = run("(count 400)", &mut env, &mut out).unwrap();
    assert_eq!(int_of(&v), 0);
}

#[test]
fn display_appends_output() {
    let mut env = Environment::new();
    let mut out = Vec::new();
    let v = run("(display 42)", &mut env, &mut out).unwrap();
    assert!(matches!(v, Value::Nil));
    assert_eq!(out, vec!["42\n".to_string()]);
    run("(newline)", &mut env, &mut out).unwrap();
    assert_eq!(out, vec!["42\n".to_string(), "\n".to_string()]);
}

#[test]
fn display_of_string_prints_raw_characters() {
    let mut env = Environment::new();
    let mut out = Vec::new();
    run("(display \"a b\")", &mut env, &mut out).unwrap();
    assert_eq!(out, vec!["a b\n".to_string()]);
}

#[test]
fn define_yields_nil_and_persists() {
    let mut env = Environment::new();
    let mut out = Vec::new();
    let v = run("(define x 3)", &mut env, &mut out).unwrap();
    assert!(matches!(v, Value::Nil));
    assert_eq!(int_of(&run("x", &mut env, &mut out).unwrap()), 3);
}

#[test]
fn huge_integer_literal_becomes_a_float() {
    let text = "9999999999999999999999";
    let v = eval_one(text).unwrap();
    let expected: f64 = text.parse().unwrap();
    assert_eq!(bits_of(&v), expected.to_bits());
}

#[test]
fn float_literal_matches_std_parsing() {
    for text in ["2.5", "-0.125", "1e3", "3.141592653589793", ".5", "7."] {
        let v = eval_one(text).unwrap();
        let expected: f64 = text.parse().unwrap();
        assert_eq!(bits_of(&v), expected.to_bits(), "literal {}", text);
    }
}

#[test]
fn paren_balance_counts_nesting() {
    assert_eq!(paren_balance("(+ 1 (f 2)"), 1);
    assert_eq!(paren_balance("(+ 1 2)"), 0);
    assert_eq!(paren_balance(") x ("), 0);
    assert_eq!(paren_balance("))"), -2);
}

#[test]
fn parse_errors_are_reported() {
    let mut toks = tokenize(&"(".to_string());
    assert_eq!(parse_expression(&mut toks).unwrap_err(), "Unexpected EOF!");
    let mut toks = tokenize(&")".to_string());
    assert_eq!(parse_expression(&mut toks).unwrap_err(), "Unexpected ')'!");
    let mut toks = tokenize(&"(define 3 4)".to_string());
    assert_eq!(
        parse_expression(&mut toks).unwrap_err(),
        "Expected identifier after define!"
    );
    let mut toks = tokenize(&"(lambda x)".to_string());
    assert_eq!(
        parse_expression(&mut toks).unwrap_err(),
        "Expected '(' after 'lambda'!"
    );
    let mut toks = tokenize(&"'x".to_string());
    assert_eq!(
        parse_expression(&mut toks).unwrap_err(),
        "Expected '(' after quote!"
    );
}

#[test]
fn string_escapes_in_the_lexer() {
    let mut env = Environment::new();
    let mut out = Vec::new();
    let v = run("(display \"a\\nb\\tc\\\\d\\\"e\")", &mut env, &mut out).unwrap();
    assert!(matches!(v, Value::Nil));
    assert_eq!(out, vec!["a\nb\tc\\d\"e\n".to_string()]);
}

#[test]
fn tokenizer_splits_punctuation() {
    let toks = tokenize(&"'(a)".to_string());
    assert_eq!(toks.data, vec!["'", "(", "a", ")"]);
}

#[test]
fn tokenizer_classifies_lexemes() {
    let toks = tokenize(&"(f 12 2.5 #t #\\x \"s\")".to_string());
    let mut cur = toks;
    assert!(matches!(cur.get_state(), Some(TokenType::OpenParen)));
    assert!(matches!(cur.next(), Some(TokenType::Identifier(s)) if s == "f"));
    assert!(matches!(cur.next(), Some(TokenType::Integer(12))));
    assert!(matches!(cur.next(), Some(TokenType::Number(b)) if b == 2.5f64.to_bits()));
    assert!(matches!(cur.next(), Some(TokenType::True)));
    assert!(matches!(cur.next(), Some(TokenType::Char('x'))));
    assert!(matches!(cur.next(), Some(TokenType::String(s)) if s == "\"s\""));
    assert!(matches!(cur.next(), Some(TokenType::CloseParen)));
    assert!(cur.next().is_none());
}

#[test]
fn overlong_char_literal_falls_back_to_identifier() {
    // Classification never fails: an unclassifiable lexeme is an identifier,
    // and the error surfaces only at evaluation.
    let toks = tokenize(&"#\\ab".to_string());
    assert!(matches!(toks.get_state(), Some(TokenType::Identifier(s)) if s == "#\\ab"));
    let e = eval_one("#\\ab").unwrap_err();
    assert_eq!(e, "Variable #\\ab not in environment!");
}

#[test]
fn nested_forms_consume_their_parens() {
    let mut env = Environment::new();
    let mut out = Vec::new();
    let v = run("(+ (if #t 1 2) 10)", &mut env, &mut out).unwrap();
    assert_eq!(int_of(&v), 11);
    let v = run("(+ ((lambda (x) (* x x)) 3) 1)", &mut env, &mut out).unwrap();
    assert_eq!(int_of(&v), 10);
}

#[test]
fn definitions_inside_arguments_persist() {
    let mut env = Environment::new();
    let mut out = Vec::new();
    run("(+ (define x 5) 0)", &mut env, &mut out).unwrap_err();
    // `define` yields nil, which is not a number; but the binding stays.
    assert_eq!(int_of(&run("x", &mut env, &mut out).unwrap()), 5);
}

#[test]
fn pair_literal_evaluates_contents() {
    let mut env = Environment::new();
    let mut out = Vec::new();
    run("(define x 4)", &mut env, &mut out).unwrap();
    let v = run("'(x)", &mut env, &mut out).unwrap();
    assert_eq!(v.render(), "(4 . ())");
}

#[test]
fn shadowed_parameters_are_not_captured() {
    let mut env = Environment::new();
    let mut out = Vec::new();
    run("(define x 5)", &mut env, &mut out).unwrap();
    run("(define g (lambda (x) x))", &mut env, &mut out).unwrap();
    assert_eq!(int_of(&run("(g 7)", &mut env, &mut out).unwrap()), 7);
}

#[test]
fn builtin_arity_errors() {
    assert!(eval_one("(cons 1)").is_err());
    assert!(eval_one("(car 1 2)").is_err());
    assert!(eval_one("(null? 1 2)").is_err());
    assert!(eval_one("(not)").is_err());
    assert!(eval_one("(display 1 2)").is_err());
    assert!(eval_one("(-)").is_err());
    assert!(eval_one("(/)").is_err());
    assert!(eval_one("(<)").is_err());
    assert!(eval_one("(=)").is_err());
}

#[test]
fn non_numeric_arithmetic_is_an_error() {
    let e = eval_one("(+ 1 #t)").unwrap_err();
    assert!(e.contains("is not a number"));
}

#[test]
fn improper_char_list_truncates() {
    let v = eval_one("(list->string (cons #\\h (cons #\\i 7)))").unwrap();
    match v {
        Value::String(s) => assert_eq!(s, "hi"),
        other => panic!("expected a string, got {:?}", other),
    }
}

#[test]
fn integer_arithmetic_wraps() {
    // Machine integers wrap on overflow, as release builds of a direct
    // implementation do.
    let v = eval_one("(+ 9223372036854775807 1)").unwrap();
    assert_eq!(int_of(&v), i64::MIN);
    let v = eval_one("(- -9223372036854775808)").unwrap();
    assert_eq!(int_of(&v), i64::MIN);
}

#[test]
fn integer_extremes_round_trip() {
    let v = eval_one("-9223372036854775808").unwrap();
    assert_eq!(v.render(), "-9223372036854775808");
    let v = eval_one("9223372036854775807").unwrap();
    assert_eq!(v.render(), "9223372036854775807");
}

#[test]
fn out_of_range_integer_becomes_float() {
    let v = eval_one("9223372036854775808").unwrap();
    let expected: f64 = "9223372036854775808".parse().unwrap();
    assert_eq!(bits_of(&v), expected.to_bits());
}

#[test]
fn classification_order_tries_integers_first() {
    // A signed lexeme is an integer literal, not an identifier.
    assert_eq!(int_of(&eval_one("+5").unwrap()), 5);
    // A bare sign is an identifier, and only applications reach builtins.
    let e = eval_one("+").unwrap_err();
    assert_eq!(e, "Variable + not in environment!");
}

#[test]
fn leading_zeros_parse_as_integers() {
    assert_eq!(int_of(&eval_one("007").unwrap()), 7);
}

#[test]
fn infinity_words_are_float_literals() {
    let v = eval_one("inf").unwrap();
    assert_eq!(bits_of(&v), f64::INFINITY.to_bits());
    let v = eval_one("-inf").unwrap();
    assert_eq!(bits_of(&v), f64::NEG_INFINITY.to_bits());
    let v = eval_one("Infinity").unwrap();
    assert_eq!(bits_of(&v), f64::INFINITY.to_bits());
}

#[test]
fn float_subtraction_and_comparison() {
    assert_eq!(bits_of(&eval_one("(- 5.5 1.25)").unwrap()), 4.25f64.to_bits());
    assert!(bool_of(&eval_one("(< 1.5 2.5)").unwrap()));
    assert!(!bool_of(&eval_one("(< 2.5 1.5)").unwrap()));
}

#[test]
fn display_renders_floats() {
    let mut env = Environment::new();
    let mut out = Vec::new();
    run("(display 2.5)", &mut env, &mut out).unwrap();
    assert_eq!(out, vec!["2.5\n".to_string()]);
}

#[test]
fn integral_floats_render_without_a_point() {
    let mut env = Environment::new();
    let mut out = Vec::new();
    run("(display (+ 1.0 2.0))", &mut env, &mut out).unwrap();
    assert_eq!(out, vec!["3\n".to_string()]);
}

#[test]
fn floats_render_with_shortest_digits() {
    // The rendering searches for the fewest significant digits that read
    // back as the same double, matching Rust's shortest formatting here.
    for text in ["0.1", "2.5", "-0.125", "3.141592653589793", "0.30000000000000004"] {
        let v = eval_one(text).unwrap();
        assert_eq!(v.render(), text, "literal {}", text);
        let expected: f64 = text.parse().unwrap();
        assert_eq!(v.render(), format!("{}", expected), "against std for {}", text);
    }
}

#[test]
fn non_finite_values_render_like_the_original() {
    assert_eq!(eval_one("inf").unwrap().render(), "inf");
    assert_eq!(eval_one("-inf").unwrap().render(), "-inf");
    assert_eq!(eval_one("nan").unwrap().render(), "NaN");
    assert_eq!(eval_one("(/ 1 0)").unwrap().render(), "inf");
}

#[test]
fn calling_a_float_names_its_shortest_text() {
    let e = eval_one("(2.5 1)").unwrap_err();
    assert_eq!(e, "2.5 is a number, not a function!");
}

#[test]
fn display_of_tenth_is_exact() {
    let mut env = Environment::new();
    let mut out = Vec::new();
    run("(display (/ 1 10))", &mut env, &mut out).unwrap();
    assert_eq!(out, vec!["0.1\n".to_string()]);
}
