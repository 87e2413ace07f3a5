use r_expr::{unescape_string, BinaryOperator, ParseError, UnaryOperator, Value};

fn integer(i: i64) -> Value {
    Value::Integer(i)
}

#[test]
fn unescape_resolves_known_escapes() {
    assert_eq!(unescape_string(r#"a\nb\tc\rd\\e\"f"#), "a\nb\tc\rd\\e\"f");
}

#[test]
fn unescape_keeps_unknown_escapes() {
    assert_eq!(unescape_string(r"\d\x"), "\\d\\x");
}

#[test]
fn unescape_drops_final_backslash() {
    assert_eq!(unescape_string("abc\\"), "abc");
    assert_eq!(unescape_string(""), "");
}

#[test]
fn unescape_without_backslash_is_identity() {
    assert_eq!(unescape_string("plain text é"), "plain text é");
}

#[test]
fn empty_input_is_invalid() {
    assert_eq!(r_expr::parse("  + 1"), Err(ParseError::InvalidExpression { position: 2 }));
    assert_eq!(r_expr::parse(""), Err(ParseError::InvalidExpression { position: 0 }));
    assert_eq!(r_expr::parse("   "), Err(ParseError::InvalidExpression { position: 3 }));
    assert_eq!(r_expr::parse(")"), Err(ParseError::InvalidExpression { position: 0 }));
}

#[test]
fn trailing_input_reports_position() {
    assert_eq!(r_expr::parse("1 +"), Err(ParseError::TrailingInput { position: 2 }));
    assert_eq!(r_expr::parse("obj:method(1, nested.x)"), Err(ParseError::TrailingInput { position: 3 }));
    assert_eq!(r_expr::parse("a b"), Err(ParseError::TrailingInput { position: 2 }));
    assert_eq!(r_expr::parse("(1"), Err(ParseError::InvalidExpression { position: 0 }));
    assert_eq!(r_expr::parse("\"abc"), Err(ParseError::InvalidExpression { position: 0 }));
    assert_eq!(r_expr::parse("é"), Err(ParseError::InvalidExpression { position: 0 }));
    assert_eq!(r_expr::parse("x é"), Err(ParseError::TrailingInput { position: 2 }));
}

#[test]
fn whitespace_between_tokens() {
    assert_eq!(
        r_expr::parse("  f ( 1 ,\t2 )\n").unwrap(),
        Value::FunctionCall("f".to_string(), vec![integer(1), integer(2)])
    );
    assert_eq!(
        r_expr::parse("obj . prop [ 0 ]").unwrap(),
        Value::Accessor(
            Box::new(Value::Accessor(
                Box::new(Value::Identifier("obj".to_string())),
                Box::new(Value::Identifier("prop".to_string()))
            )),
            Box::new(integer(0))
        )
    );
}

#[test]
fn no_whitespace_needed() {
    assert_eq!(
        r_expr::parse("1-2").unwrap(),
        Value::BinaryOp(BinaryOperator::Subtract, Box::new(integer(1)), Box::new(integer(2)))
    );
    assert_eq!(
        r_expr::parse("a<=b").unwrap(),
        Value::BinaryOp(
            BinaryOperator::LessEqual,
            Box::new(Value::Identifier("a".to_string())),
            Box::new(Value::Identifier("b".to_string()))
        )
    );
}

#[test]
fn integer_range_limits() {
    assert!(r_expr::check_integer_range("9223372036854775807"));
    assert_eq!(r_expr::parse("9223372036854775807").unwrap(), integer(i64::MAX));
    assert!(!r_expr::check_integer_range("9223372036854775808"));
    assert!(!r_expr::check_integer_range("f(99999999999999999999)"));
    assert!(r_expr::check_integer_range("f(-9223372036854775808)"));
    assert_eq!(
        r_expr::parse("f(-9223372036854775808)").unwrap(),
        Value::FunctionCall("f".to_string(), vec![integer(i64::MIN)])
    );
    assert!(!r_expr::check_integer_range("a[-9223372036854775809]"));
    // not an expression: nothing to be out of range
    assert!(r_expr::check_integer_range("99999999999999999999 +"));
    assert_eq!(
        r_expr::parse("99999999999999999999 +"),
        Err(ParseError::TrailingInput { position: 21 })
    );
}

#[test]
fn integer_out_of_range_is_an_error() {
    assert_eq!(r_expr::parse("99999999999999999999"), Err(ParseError::IntegerOutOfRange));
    assert_eq!(r_expr::parse("9223372036854775808"), Err(ParseError::IntegerOutOfRange));
    assert_eq!(r_expr::parse("f(99999999999999999999)"), Err(ParseError::IntegerOutOfRange));
    assert_eq!(r_expr::parse("a[-9223372036854775809]"), Err(ParseError::IntegerOutOfRange));
    // the negation of 2^63 is a unary minus on a literal that does not fit
    assert_eq!(r_expr::parse("-9223372036854775808"), Err(ParseError::IntegerOutOfRange));
    assert_eq!(r_expr::parse("1 + 2 * 99999999999999999999"), Err(ParseError::IntegerOutOfRange));
}

#[test]
fn float_forms() {
    assert_eq!(r_expr::parse("0.5").unwrap(), Value::Float("0.5".to_string()));
    // an exponent without digits is not part of the float
    assert_eq!(r_expr::parse("1.5e"), Err(ParseError::TrailingInput { position: 3 }));
    // a float needs digits after the point
    assert_eq!(r_expr::parse("1."), Err(ParseError::TrailingInput { position: 1 }));
    assert_eq!(
        r_expr::parse("f(-2.5e-3)").unwrap(),
        Value::FunctionCall("f".to_string(), vec![Value::Float("-2.5e-3".to_string())])
    );
}

#[test]
fn operator_symbols() {
    let bins = [
        (BinaryOperator::Add, "+"),
        (BinaryOperator::Subtract, "-"),
        (BinaryOperator::Multiply, "*"),
        (BinaryOperator::Divide, "/"),
        (BinaryOperator::Modulo, "%"),
        (BinaryOperator::Equal, "=="),
        (BinaryOperator::NotEqual, "!="),
        (BinaryOperator::Less, "<"),
        (BinaryOperator::LessEqual, "<="),
        (BinaryOperator::Greater, ">"),
        (BinaryOperator::GreaterEqual, ">="),
        (BinaryOperator::And, "&&"),
        (BinaryOperator::Or, "||"),
    ];
    for (op, sym) in bins {
        assert_eq!(op.to_string(), sym);
    }
    assert_eq!(UnaryOperator::Not.to_string(), "!");
    assert_eq!(UnaryOperator::Negate.to_string(), "-");
    assert_eq!(UnaryOperator::BitwiseNot.to_string(), "~");
}

#[test]
fn shapes_of_results() {
    // arguments are literals only
    assert!(r_expr::parse("f(g())").is_err());
    // a method is called on an accessor chain, not on a literal
    assert!(r_expr::parse("5:m()").is_err());
    // strings keep unknown escapes and may contain parentheses
    assert_eq!(r_expr::parse(r#""(\q)""#).unwrap(), Value::String("(\\q)".to_string()));
}

#[test]
fn parentheses_give_the_inner_value() {
    assert_eq!(r_expr::parse("(a.b)").unwrap(), r_expr::parse("a.b").unwrap());
    assert_eq!(r_expr::parse("((f(1)))").unwrap(), r_expr::parse("f(1)").unwrap());
}

fn ident(name: &str) -> Value {
    Value::Identifier(name.to_string())
}

fn bin(op: BinaryOperator, l: Value, r: Value) -> Value {
    Value::BinaryOp(op, Box::new(l), Box::new(r))
}

#[test]
fn operator_after_expression_of_its_level() {
    // `x` of the operator's level, then the operator, then a tighter operand
    let x = "a == b || c";
    let y = "d && e";
    let whole = format!("{} || {}", x, y);
    assert_eq!(
        r_expr::parse(&whole).unwrap(),
        bin(BinaryOperator::Or, r_expr::parse(x).unwrap(), r_expr::parse(y).unwrap())
    );
    assert_eq!(
        r_expr::parse("8 / 4 % 3 * 2").unwrap(),
        bin(
            BinaryOperator::Multiply,
            bin(BinaryOperator::Modulo, bin(BinaryOperator::Divide, integer(8), integer(4)), integer(3)),
            integer(2)
        )
    );
    assert_eq!(
        r_expr::parse("1 < 2 == 3 > 4").unwrap(),
        bin(
            BinaryOperator::Greater,
            bin(BinaryOperator::Equal, bin(BinaryOperator::Less, integer(1), integer(2)), integer(3)),
            integer(4)
        )
    );
    assert_eq!(
        r_expr::parse("-a * b").unwrap(),
        bin(
            BinaryOperator::Multiply,
            Value::UnaryOp(UnaryOperator::Negate, Box::new(ident("a"))),
            ident("b")
        )
    );
}

#[test]
fn prefix_operators_nest() {
    assert_eq!(
        r_expr::parse("~!-x.y").unwrap(),
        Value::UnaryOp(
            UnaryOperator::BitwiseNot,
            Box::new(Value::UnaryOp(
                UnaryOperator::Not,
                Box::new(Value::UnaryOp(
                    UnaryOperator::Negate,
                    Box::new(Value::Accessor(Box::new(ident("x")), Box::new(ident("y"))))
                ))
            ))
        )
    );
}

#[test]
fn accessor_suffix_wraps_the_chain() {
    let chain = r_expr::parse(r#"a[0] . b"#).unwrap();
    assert_eq!(
        r_expr::parse(r#"a[0] . b ["c"]"#).unwrap(),
        Value::Accessor(Box::new(chain), Box::new(Value::String("c".to_string())))
    );
    assert_eq!(
        r_expr::parse("a[-1]").unwrap(),
        Value::Accessor(Box::new(ident("a")), Box::new(integer(-1)))
    );
}

#[test]
fn method_suffix_wraps_the_receiver() {
    let recv = r_expr::parse("x.y:f(1)").unwrap();
    assert_eq!(
        r_expr::parse("x.y:f(1) : g(\"s\", 2.5)").unwrap(),
        Value::MethodCall(
            Box::new(recv),
            "g".to_string(),
            vec![Value::String("s".to_string()), Value::Float("2.5".to_string())]
        )
    );
    assert_eq!(
        r_expr::parse("x:h()").unwrap(),
        Value::MethodCall(Box::new(ident("x")), "h".to_string(), vec![])
    );
}

#[test]
fn unescape_splits_after_an_even_run_of_backslashes() {
    let pairs = [("ab", r"\n"), (r"x\\", "n"), (r"\t\\\\", r#"\"q"#), ("", r"\r"), (r"\n", "")];
    for (a, b) in pairs {
        let whole = format!("{}{}", a, b);
        assert_eq!(unescape_string(&whole), unescape_string(a) + &unescape_string(b));
    }
    // after an odd run the split does not hold: the backslash escapes what follows
    assert_ne!(unescape_string(r"x\n"), unescape_string(r"x\") + &unescape_string("n"));
}

#[test]
fn cloned_value_is_equal() {
    let v = r_expr::parse(r#"a.b:f(1, "x", 2.5) + -g() * (c[0] || !d)"#).unwrap();
    assert_eq!(v.clone(), v);
}

#[test]
fn program_rule_reports_out_of_range() {
    let chars: Vec<char> = "f(99999999999999999999)".chars().collect();
    assert_eq!(
        r_expr::RExprParser::parse_program(&chars),
        (Err(ParseError::IntegerOutOfRange), true)
    );
    let chars: Vec<char> = "f(1)".chars().collect();
    assert_eq!(
        r_expr::RExprParser::parse_program(&chars),
        (Ok(Value::FunctionCall("f".to_string(), vec![integer(1)])), false)
    );
}
