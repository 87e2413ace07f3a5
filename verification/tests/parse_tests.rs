use r_expr::{BinaryOperator, UnaryOperator, Value};

fn parse(input: &str) -> Value {
    assert!(r_expr::check_integer_range(input));
    r_expr::parse(input).expect("Failed to parse")
}

/// A float literal written `text`, which denotes `x`.
fn flt(x: f64, text: &str) -> Value {
    assert_eq!(text.parse::<f64>().unwrap(), x);
    Value::Float(text.to_string())
}

fn root_level1_0_level2_key_obj() -> Value {
    Value::Accessor(
        Box::new(Value::Accessor(
            Box::new(Value::Accessor(
                Box::new(Value::Accessor(
                    Box::new(Value::Accessor(
                        Box::new(Value::Identifier("root".to_string())),
                        Box::new(Value::Identifier("level1".to_string())),
                    )),
                    Box::new(Value::Integer(0)),
                )),
                Box::new(Value::Identifier("level2".to_string())),
            )),
            Box::new(Value::String("key".to_string())),
        )),
        Box::new(Value::Identifier("obj".to_string())),
    )
}

#[test]
fn test_accessor_alternating_dots_brackets() {
    let expected = Value::Accessor(
        Box::new(Value::Accessor(
            Box::new(Value::Accessor(
                Box::new(Value::Accessor(
                    Box::new(Value::Accessor(
                        Box::new(Value::Identifier("obj".to_string())),
                        Box::new(Value::Identifier("arr".to_string())),
                    )),
                    Box::new(Value::Integer(0)),
                )),
                Box::new(Value::Identifier("item".to_string())),
            )),
            Box::new(Value::String("key".to_string())),
        )),
        Box::new(Value::Identifier("value".to_string())),
    );
    let result = parse(r#"obj.arr[0].item["key"].value"#);
    assert_eq!(result, expected);
}

#[test]
fn test_accessor_complex_chain() {
    let chain_to_1 = Value::Accessor(
        Box::new(Value::Accessor(
            Box::new(Value::Accessor(
                Box::new(Value::Accessor(
                    Box::new(Value::Accessor(
                        Box::new(Value::Accessor(
                            Box::new(Value::Identifier("root".to_string())),
                            Box::new(Value::Identifier("users".to_string())),
                        )),
                        Box::new(Value::Integer(0)),
                    )),
                    Box::new(Value::Identifier("profile".to_string())),
                )),
                Box::new(Value::String("email".to_string())),
            )),
            Box::new(Value::Identifier("address".to_string())),
        )),
        Box::new(Value::Integer(1)),
    );
    let expected = Value::Accessor(
        Box::new(chain_to_1),
        Box::new(Value::Identifier("street".to_string())),
    );
    let result = parse(r#"root.users[0].profile["email"].address[1].street"#);
    assert_eq!(result, expected);
}

#[test]
fn test_method_on_deep_chain() {
    let expected = Value::MethodCall(
        Box::new(root_level1_0_level2_key_obj()),
        "execute".to_string(),
        vec![],
    );
    let result = parse("root.level1[0].level2[\"key\"].obj:execute()");
    assert_eq!(result, expected);
}

#[test]
fn test_readme_quick_start_example() {
    let expr = parse("user.profile.email");
    let expected = Value::Accessor(
        Box::new(Value::Accessor(
            Box::new(Value::Identifier("user".to_string())),
            Box::new(Value::Identifier("profile".to_string())),
        )),
        Box::new(Value::Identifier("email".to_string())),
    );
    assert_eq!(expr, expected);
}

#[test]
fn test_readme_api_doc_example() {
    let expr = parse("user.name");
    match expr {
        Value::Accessor(parent, field) => {
            // Verify the structure matches the documentation
            assert!(matches!(*parent, Value::Identifier(_)));
            assert!(matches!(*field, Value::Identifier(_)));
        }
        _ => panic!("Expected Accessor variant"),
    }
}

#[test]
fn test_readme_sql_integration_sum_example() {
    let expr = parse("sales:sum()");
    match expr {
        Value::MethodCall(obj, method, args) => {
            assert!(matches!(*obj, Value::Identifier(_)));
            assert_eq!(method, "sum");
            assert!(args.is_empty());
        }
        _ => panic!("Expected MethodCall variant"),
    }
}

#[test]
fn test_readme_sql_integration_accessor_example() {
    let expr = parse("user.created_at");
    assert!(matches!(expr, Value::Accessor(_, _)));
}

#[test]
fn test_literals_zero() {
    let result = parse("0");
    let expected = Value::Integer(0);
    assert_eq!(result, expected);
}

#[test]
fn test_literals_positive_single_digit() {
    let result = parse("5");
    let expected = Value::Integer(5);
    assert_eq!(result, expected);
}

#[test]
fn test_literals_positive_multi_digit() {
    let result = parse("12345");
    let expected = Value::Integer(12345);
    assert_eq!(result, expected);
}

#[test]
fn test_literals_negative_single_digit() {
    let result = parse("-5");
    let expected = Value::UnaryOp(UnaryOperator::Negate, Box::new(Value::Integer(5)));
    assert_eq!(result, expected);
}

#[test]
fn test_literals_negative_multi_digit() {
    let result = parse("-98765");
    let expected = Value::UnaryOp(UnaryOperator::Negate, Box::new(Value::Integer(98765)));
    assert_eq!(result, expected);
}

#[test]
fn test_literals_large_integer() {
    let result = parse("999999999");
    let expected = Value::Integer(999999999);
    assert_eq!(result, expected);
}

#[test]
fn test_literals_float_one_decimal() {
    let result = parse("1.0");
    let expected = flt(1.0, "1.0");
    assert_eq!(result, expected);
}

#[test]
fn test_literals_float_multi_decimal() {
    let result = parse("1.15");
    let expected = flt(1.15, "1.15");
    assert_eq!(result, expected);
}

#[test]
fn test_literals_float_leading_zero() {
    let result = parse("0.5");
    let expected = flt(0.5, "0.5");
    assert_eq!(result, expected);
}

#[test]
fn test_literals_negative_float() {
    let result = parse("-2.5");
    let expected = Value::UnaryOp(UnaryOperator::Negate, Box::new(flt(2.5, "2.5")));
    assert_eq!(result, expected);
}

#[test]
fn test_literals_scientific_positive_exp() {
    let result = parse("1.5e10");
    let expected = flt(1.5e10, "1.5e10");
    assert_eq!(result, expected);
}

#[test]
fn test_literals_scientific_negative_exp() {
    let result = parse("1.5e-10");
    let expected = flt(1.5e-10, "1.5e-10");
    assert_eq!(result, expected);
}

#[test]
fn test_literals_scientific_plus_sign() {
    let result = parse("1.5e+10");
    let expected = flt(1.5e+10, "1.5e+10");
    assert_eq!(result, expected);
}

#[test]
fn test_literals_scientific_uppercase_e() {
    let result = parse("1.5E-10");
    let expected = flt(1.5E-10, "1.5E-10");
    assert_eq!(result, expected);
}

#[test]
fn test_literals_empty_string() {
    let result = parse(r#""""#);
    let expected = Value::String("".to_string());
    assert_eq!(result, expected);
}

#[test]
fn test_literals_single_char_string() {
    let result = parse(r#""a""#);
    let expected = Value::String("a".to_string());
    assert_eq!(result, expected);
}

#[test]
fn test_literals_string_with_spaces() {
    let result = parse(r#""hello world""#);
    let expected = Value::String("hello world".to_string());
    assert_eq!(result, expected);
}

#[test]
fn test_literals_string_with_escape_newline() {
    let result = parse(r#""line1\nline2""#);
    let expected = Value::String("line1\nline2".to_string());
    assert_eq!(result, expected);
}

#[test]
fn test_literals_string_with_escape_tab() {
    let result = parse(r#""col1\tcol2""#);
    let expected = Value::String("col1\tcol2".to_string());
    assert_eq!(result, expected);
}

#[test]
fn test_literals_string_with_escape_backslash() {
    let result = parse(r#""path\\to\\file""#);
    let expected = Value::String("path\\to\\file".to_string());
    assert_eq!(result, expected);
}

#[test]
fn test_literals_string_with_escape_quote() {
    let result = parse(r#""say \"hi\"""#);
    let expected = Value::String("say \"hi\"".to_string());
    assert_eq!(result, expected);
}

#[test]
fn test_literals_string_mixed_escapes() {
    let result = parse(r#""a\nb\tc\d\"e""#);
    let expected = Value::String("a\nb\tc\\d\"e".to_string());
    assert_eq!(result, expected);
}

#[test]
fn test_accessors_single_identifier() {
    let result = parse("my_var");
    let expected = Value::Identifier("my_var".to_string());
    assert_eq!(result, expected);
}

#[test]
fn test_accessors_underscore_prefix() {
    let result = parse("_private");
    let expected = Value::Identifier("_private".to_string());
    assert_eq!(result, expected);
}

#[test]
fn test_accessors_underscore_only() {
    let result = parse("_");
    let expected = Value::Identifier("_".to_string());
    assert_eq!(result, expected);
}

#[test]
fn test_accessors_single_dot() {
    let result = parse("obj.prop");
    let expected = Value::Accessor(Box::new(Value::Identifier("obj".to_string())), Box::new(Value::Identifier("prop".to_string())));
    assert_eq!(result, expected);
}

#[test]
fn test_accessors_double_dot() {
    let result = parse("obj.prop.field");
    let expected = Value::Accessor(Box::new(Value::Accessor(Box::new(Value::Identifier("obj".to_string())), Box::new(Value::Identifier("prop".to_string())))), Box::new(Value::Identifier("field".to_string())));
    assert_eq!(result, expected);
}

#[test]
fn test_accessors_triple_dot() {
    let result = parse("a.b.c.d");
    let expected = Value::Accessor(Box::new(Value::Accessor(Box::new(Value::Accessor(Box::new(Value::Identifier("a".to_string())), Box::new(Value::Identifier("b".to_string())))), Box::new(Value::Identifier("c".to_string())))), Box::new(Value::Identifier("d".to_string())));
    assert_eq!(result, expected);
}

#[test]
fn test_accessors_dot_with_numbers() {
    let result = parse("var1.field2");
    let expected = Value::Accessor(Box::new(Value::Identifier("var1".to_string())), Box::new(Value::Identifier("field2".to_string())));
    assert_eq!(result, expected);
}

#[test]
fn test_accessors_bracket_zero() {
    let result = parse("arr[0]");
    let expected = Value::Accessor(Box::new(Value::Identifier("arr".to_string())), Box::new(Value::Integer(0)));
    assert_eq!(result, expected);
}

#[test]
fn test_accessors_bracket_positive_int() {
    let result = parse("arr[42]");
    let expected = Value::Accessor(Box::new(Value::Identifier("arr".to_string())), Box::new(Value::Integer(42)));
    assert_eq!(result, expected);
}

#[test]
fn test_accessors_bracket_negative_int() {
    let result = parse("arr[-5]");
    let expected = Value::Accessor(Box::new(Value::Identifier("arr".to_string())), Box::new(Value::Integer(-5)));
    assert_eq!(result, expected);
}

#[test]
fn test_accessors_bracket_large_int() {
    let result = parse("arr[999999]");
    let expected = Value::Accessor(Box::new(Value::Identifier("arr".to_string())), Box::new(Value::Integer(999999)));
    assert_eq!(result, expected);
}

#[test]
fn test_accessors_bracket_string_key() {
    let result = parse(r#"obj["key"]"#);
    let expected = Value::Accessor(Box::new(Value::Identifier("obj".to_string())), Box::new(Value::String("key".to_string())));
    assert_eq!(result, expected);
}

#[test]
fn test_accessors_bracket_empty_string() {
    let result = parse(r#"obj[""]"#);
    let expected = Value::Accessor(Box::new(Value::Identifier("obj".to_string())), Box::new(Value::String("".to_string())));
    assert_eq!(result, expected);
}

#[test]
fn test_accessors_bracket_string_with_space() {
    let result = parse(r#"obj["my key"]"#);
    let expected = Value::Accessor(Box::new(Value::Identifier("obj".to_string())), Box::new(Value::String("my key".to_string())));
    assert_eq!(result, expected);
}

#[test]
fn test_accessors_bracket_string_with_special() {
    let result = parse(r#"obj["key_123"]"#);
    let expected = Value::Accessor(Box::new(Value::Identifier("obj".to_string())), Box::new(Value::String("key_123".to_string())));
    assert_eq!(result, expected);
}

#[test]
fn test_accessors_dot_then_bracket() {
    let result = parse("obj.arr[0]");
    let expected = Value::Accessor(Box::new(Value::Accessor(Box::new(Value::Identifier("obj".to_string())), Box::new(Value::Identifier("arr".to_string())))), Box::new(Value::Integer(0)));
    assert_eq!(result, expected);
}

#[test]
fn test_accessors_bracket_then_dot() {
    let result = parse("arr[0].prop");
    let expected = Value::Accessor(Box::new(Value::Accessor(Box::new(Value::Identifier("arr".to_string())), Box::new(Value::Integer(0)))), Box::new(Value::Identifier("prop".to_string())));
    assert_eq!(result, expected);
}

#[test]
fn test_accessors_multiple_brackets() {
    let result = parse("data[0][1][2]");
    let expected = Value::Accessor(Box::new(Value::Accessor(Box::new(Value::Accessor(Box::new(Value::Identifier("data".to_string())), Box::new(Value::Integer(0)))), Box::new(Value::Integer(1)))), Box::new(Value::Integer(2)));
    assert_eq!(result, expected);
}

#[test]
fn test_accessors_multiple_brackets_string_keys() {
    let result = parse(r#"obj["a"]["b"]["c"]"#);
    let expected = Value::Accessor(Box::new(Value::Accessor(Box::new(Value::Accessor(Box::new(Value::Identifier("obj".to_string())), Box::new(Value::String("a".to_string())))), Box::new(Value::String("b".to_string())))), Box::new(Value::String("c".to_string())));
    assert_eq!(result, expected);
}

#[test]
fn test_accessors_identifier_with_underscores() {
    let result = parse("my_obj._private[0]._field");
    let expected = Value::Accessor(Box::new(Value::Accessor(Box::new(Value::Accessor(Box::new(Value::Identifier("my_obj".to_string())), Box::new(Value::Identifier("_private".to_string())))), Box::new(Value::Integer(0)))), Box::new(Value::Identifier("_field".to_string())));
    assert_eq!(result, expected);
}

#[test]
fn test_direct_function_calls_func_empty_args() {
    let result = parse("func()");
    let expected = Value::FunctionCall("func".to_string(), vec![]);
    assert_eq!(result, expected);
}

#[test]
fn test_direct_function_calls_func_no_args_underscore() {
    let result = parse("_func()");
    let expected = Value::FunctionCall("_func".to_string(), vec![]);
    assert_eq!(result, expected);
}

#[test]
fn test_direct_function_calls_func_int_arg() {
    let result = parse("add(5)");
    let expected = Value::FunctionCall("add".to_string(), vec![Value::Integer(5)]);
    assert_eq!(result, expected);
}

#[test]
fn test_direct_function_calls_func_negative_int() {
    let result = parse("sub(-3)");
    let expected = Value::FunctionCall("sub".to_string(), vec![Value::Integer(-3)]);
    assert_eq!(result, expected);
}

#[test]
fn test_direct_function_calls_func_float_arg() {
    let result = parse("multiply(2.5)");
    let expected = Value::FunctionCall("multiply".to_string(), vec![flt(2.5, "2.5")]);
    assert_eq!(result, expected);
}

#[test]
fn test_direct_function_calls_func_negative_float() {
    let result = parse("divide(-1.5)");
    let expected = Value::FunctionCall("divide".to_string(), vec![flt(-1.5, "-1.5")]);
    assert_eq!(result, expected);
}

#[test]
fn test_direct_function_calls_func_string_arg() {
    let result = parse(r#"greet("Alice")"#);
    let expected = Value::FunctionCall("greet".to_string(), vec![Value::String("Alice".to_string())]);
    assert_eq!(result, expected);
}

#[test]
fn test_direct_function_calls_func_two_ints() {
    let result = parse("add(1, 2)");
    let expected = Value::FunctionCall("add".to_string(), vec![Value::Integer(1), Value::Integer(2)]);
    assert_eq!(result, expected);
}

#[test]
fn test_direct_function_calls_func_three_ints() {
    let result = parse("sum(1, 2, 3)");
    let expected = Value::FunctionCall("sum".to_string(), vec![Value::Integer(1), Value::Integer(2), Value::Integer(3)]);
    assert_eq!(result, expected);
}

#[test]
fn test_direct_function_calls_func_two_floats() {
    let result = parse("calc(1.5, 2.5)");
    let expected = Value::FunctionCall("calc".to_string(), vec![flt(1.5, "1.5"), flt(2.5, "2.5")]);
    assert_eq!(result, expected);
}

#[test]
fn test_direct_function_calls_func_two_strings() {
    let result = parse(r#"concat("hello", "world")"#);
    let expected = Value::FunctionCall("concat".to_string(), vec![Value::String("hello".to_string()), Value::String("world".to_string())]);
    assert_eq!(result, expected);
}

#[test]
fn test_direct_function_calls_func_int_float() {
    let result = parse("mix(1, 2.5)");
    let expected = Value::FunctionCall("mix".to_string(), vec![Value::Integer(1), flt(2.5, "2.5")]);
    assert_eq!(result, expected);
}

#[test]
fn test_direct_function_calls_func_int_string() {
    let result = parse(r#"describe(42, "answer")"#);
    let expected = Value::FunctionCall("describe".to_string(), vec![Value::Integer(42), Value::String("answer".to_string())]);
    assert_eq!(result, expected);
}

#[test]
fn test_direct_function_calls_func_float_string() {
    let result = parse(r#"format(1.15, "pi")"#);
    let expected = Value::FunctionCall("format".to_string(), vec![flt(1.15, "1.15"), Value::String("pi".to_string())]);
    assert_eq!(result, expected);
}

#[test]
fn test_direct_function_calls_func_int_float_string() {
    let result = parse(r#"complex(5, 2.5, "test")"#);
    let expected = Value::FunctionCall("complex".to_string(), vec![Value::Integer(5), flt(2.5, "2.5"), Value::String("test".to_string())]);
    assert_eq!(result, expected);
}

#[test]
fn test_direct_function_calls_func_four_mixed() {
    let result = parse(r#"process(1, 2.5, "text", -3)"#);
    let expected = Value::FunctionCall("process".to_string(), vec![Value::Integer(1), flt(2.5, "2.5"), Value::String("text".to_string()), Value::Integer(-3)]);
    assert_eq!(result, expected);
}

#[test]
fn test_direct_function_calls_func_five_args() {
    let result = parse(r#"calculate(0, 1.1, 2.2, "x", -5)"#);
    let expected = Value::FunctionCall("calculate".to_string(), vec![Value::Integer(0), flt(1.1, "1.1"), flt(2.2, "2.2"), Value::String("x".to_string()), Value::Integer(-5)]);
    assert_eq!(result, expected);
}

#[test]
fn test_direct_function_calls_func_zero_int() {
    let result = parse("count(0)");
    let expected = Value::FunctionCall("count".to_string(), vec![Value::Integer(0)]);
    assert_eq!(result, expected);
}

#[test]
fn test_direct_function_calls_func_zero_float() {
    let result = parse("measure(0.0)");
    let expected = Value::FunctionCall("measure".to_string(), vec![flt(0.0, "0.0")]);
    assert_eq!(result, expected);
}

#[test]
fn test_direct_function_calls_func_all_zeros() {
    let result = parse("zeros(0, 0, 0)");
    let expected = Value::FunctionCall("zeros".to_string(), vec![Value::Integer(0), Value::Integer(0), Value::Integer(0)]);
    assert_eq!(result, expected);
}

#[test]
fn test_direct_function_calls_func_large_int() {
    let result = parse("big(999999999)");
    let expected = Value::FunctionCall("big".to_string(), vec![Value::Integer(999999999)]);
    assert_eq!(result, expected);
}

#[test]
fn test_direct_function_calls_func_scientific() {
    let result = parse("sci(1.23e45)");
    let expected = Value::FunctionCall("sci".to_string(), vec![flt(1.23e45, "1.23e45")]);
    assert_eq!(result, expected);
}

#[test]
fn test_method_calls_method_simple() {
    let result = parse("obj:method()");
    let expected = Value::MethodCall(Box::new(Value::Identifier("obj".to_string())), "method".to_string(), vec![]);
    assert_eq!(result, expected);
}

#[test]
fn test_method_calls_method_underscore() {
    let result = parse("_obj:_method()");
    let expected = Value::MethodCall(Box::new(Value::Identifier("_obj".to_string())), "_method".to_string(), vec![]);
    assert_eq!(result, expected);
}

#[test]
fn test_method_calls_method_single_int() {
    let result = parse("obj:process(5)");
    let expected = Value::MethodCall(Box::new(Value::Identifier("obj".to_string())), "process".to_string(), vec![Value::Integer(5)]);
    assert_eq!(result, expected);
}

#[test]
fn test_method_calls_method_single_string() {
    let result = parse("obj:set(\"value\")");
    let expected = Value::MethodCall(Box::new(Value::Identifier("obj".to_string())), "set".to_string(), vec![Value::String("value".to_string())]);
    assert_eq!(result, expected);
}

#[test]
fn test_method_calls_method_two_args() {
    let result = parse("obj:init(1, 2)");
    let expected = Value::MethodCall(Box::new(Value::Identifier("obj".to_string())), "init".to_string(), vec![Value::Integer(1), Value::Integer(2)]);
    assert_eq!(result, expected);
}

#[test]
fn test_method_calls_method_mixed_args() {
    let result = parse("obj:configure(42, \"settings\", 1.15)");
    let expected = Value::MethodCall(Box::new(Value::Identifier("obj".to_string())), "configure".to_string(), vec![Value::Integer(42), Value::String("settings".to_string()), flt(1.15, "1.15")]);
    assert_eq!(result, expected);
}

#[test]
fn test_method_calls_method_on_dot() {
    let result = parse("obj.prop:method()");
    let expected = Value::MethodCall(Box::new(Value::Accessor(Box::new(Value::Identifier("obj".to_string())), Box::new(Value::Identifier("prop".to_string())))), "method".to_string(), vec![]);
    assert_eq!(result, expected);
}

#[test]
fn test_method_calls_method_on_bracket_int() {
    let result = parse("arr[0]:process()");
    let expected = Value::MethodCall(Box::new(Value::Accessor(Box::new(Value::Identifier("arr".to_string())), Box::new(Value::Integer(0)))), "process".to_string(), vec![]);
    assert_eq!(result, expected);
}

#[test]
fn test_method_calls_method_on_bracket_string() {
    let result = parse("dict[\"key\"]:apply()");
    let expected = Value::MethodCall(Box::new(Value::Accessor(Box::new(Value::Identifier("dict".to_string())), Box::new(Value::String("key".to_string())))), "apply".to_string(), vec![]);
    assert_eq!(result, expected);
}

#[test]
fn test_method_calls_method_on_chain_dot_bracket() {
    let result = parse("obj.arr[0]:method()");
    let expected = Value::MethodCall(Box::new(Value::Accessor(Box::new(Value::Accessor(Box::new(Value::Identifier("obj".to_string())), Box::new(Value::Identifier("arr".to_string())))), Box::new(Value::Integer(0)))), "method".to_string(), vec![]);
    assert_eq!(result, expected);
}

#[test]
fn test_method_calls_method_on_chain_bracket_dot() {
    let result = parse("arr[0].obj:method()");
    let expected = Value::MethodCall(Box::new(Value::Accessor(Box::new(Value::Accessor(Box::new(Value::Identifier("arr".to_string())), Box::new(Value::Integer(0)))), Box::new(Value::Identifier("obj".to_string())))), "method".to_string(), vec![]);
    assert_eq!(result, expected);
}

#[test]
fn test_method_calls_method_many_args() {
    let result = parse("obj:process(1, 2.5, \"text\", -3, 0)");
    let expected = Value::MethodCall(Box::new(Value::Identifier("obj".to_string())), "process".to_string(), vec![Value::Integer(1), flt(2.5, "2.5"), Value::String("text".to_string()), Value::Integer(-3), Value::Integer(0)]);
    assert_eq!(result, expected);
}

#[test]
fn test_method_calls_method_zero_arg() {
    let result = parse("obj:reset(0)");
    let expected = Value::MethodCall(Box::new(Value::Identifier("obj".to_string())), "reset".to_string(), vec![Value::Integer(0)]);
    assert_eq!(result, expected);
}

#[test]
fn test_method_calls_method_negative_args() {
    let result = parse("obj:apply(-1, -2.5)");
    let expected = Value::MethodCall(Box::new(Value::Identifier("obj".to_string())), "apply".to_string(), vec![Value::Integer(-1), flt(-2.5, "-2.5")]);
    assert_eq!(result, expected);
}

#[test]
fn test_method_calls_method_underscore_chain() {
    let result = parse("_obj._prop[0]:_method()");
    let expected = Value::MethodCall(Box::new(Value::Accessor(Box::new(Value::Accessor(Box::new(Value::Identifier("_obj".to_string())), Box::new(Value::Identifier("_prop".to_string())))), Box::new(Value::Integer(0)))), "_method".to_string(), vec![]);
    assert_eq!(result, expected);
}

#[test]
fn test_method_chaining_chain_two_simple() {
    let result = parse("obj:m1():m2()");
    let expected = Value::MethodCall(Box::new(Value::MethodCall(Box::new(Value::Identifier("obj".to_string())), "m1".to_string(), vec![])), "m2".to_string(), vec![]);
    assert_eq!(result, expected);
}

#[test]
fn test_method_chaining_chain_two_with_first_args() {
    let result = parse("obj:m1(5):m2()");
    let expected = Value::MethodCall(Box::new(Value::MethodCall(Box::new(Value::Identifier("obj".to_string())), "m1".to_string(), vec![Value::Integer(5)])), "m2".to_string(), vec![]);
    assert_eq!(result, expected);
}

#[test]
fn test_method_chaining_chain_two_with_second_args() {
    let result = parse("obj:m1():m2(10)");
    let expected = Value::MethodCall(Box::new(Value::MethodCall(Box::new(Value::Identifier("obj".to_string())), "m1".to_string(), vec![])), "m2".to_string(), vec![Value::Integer(10)]);
    assert_eq!(result, expected);
}

#[test]
fn test_method_chaining_chain_two_with_both_args() {
    let result = parse("obj:m1(5):m2(10)");
    let expected = Value::MethodCall(Box::new(Value::MethodCall(Box::new(Value::Identifier("obj".to_string())), "m1".to_string(), vec![Value::Integer(5)])), "m2".to_string(), vec![Value::Integer(10)]);
    assert_eq!(result, expected);
}

#[test]
fn test_method_chaining_chain_two_with_string_args() {
    let result = parse(r#"obj:m1("a"):m2("b")"#);
    let expected = Value::MethodCall(Box::new(Value::MethodCall(Box::new(Value::Identifier("obj".to_string())), "m1".to_string(), vec![Value::String("a".to_string())])), "m2".to_string(), vec![Value::String("b".to_string())]);
    assert_eq!(result, expected);
}

#[test]
fn test_method_chaining_chain_three_simple() {
    let result = parse("obj:m1():m2():m3()");
    let expected = Value::MethodCall(Box::new(Value::MethodCall(Box::new(Value::MethodCall(Box::new(Value::Identifier("obj".to_string())), "m1".to_string(), vec![])), "m2".to_string(), vec![])), "m3".to_string(), vec![]);
    assert_eq!(result, expected);
}

#[test]
fn test_method_chaining_chain_three_with_args() {
    let result = parse("obj:m1(1):m2(2):m3(3)");
    let expected = Value::MethodCall(Box::new(Value::MethodCall(Box::new(Value::MethodCall(Box::new(Value::Identifier("obj".to_string())), "m1".to_string(), vec![Value::Integer(1)])), "m2".to_string(), vec![Value::Integer(2)])), "m3".to_string(), vec![Value::Integer(3)]);
    assert_eq!(result, expected);
}

#[test]
fn test_method_chaining_chain_four() {
    let result = parse("obj:a():b():c():d()");
    let expected = Value::MethodCall(Box::new(Value::MethodCall(Box::new(Value::MethodCall(Box::new(Value::MethodCall(Box::new(Value::Identifier("obj".to_string())), "a".to_string(), vec![])), "b".to_string(), vec![])), "c".to_string(), vec![])), "d".to_string(), vec![]);
    assert_eq!(result, expected);
}

#[test]
fn test_method_chaining_chain_on_dot_access() {
    let result = parse("obj.prop:m1():m2()");
    let expected = Value::MethodCall(Box::new(Value::MethodCall(Box::new(Value::Accessor(Box::new(Value::Identifier("obj".to_string())), Box::new(Value::Identifier("prop".to_string())))), "m1".to_string(), vec![])), "m2".to_string(), vec![]);
    assert_eq!(result, expected);
}

#[test]
fn test_method_chaining_chain_on_bracket_access() {
    let result = parse("arr[0]:m1():m2()");
    let expected = Value::MethodCall(Box::new(Value::MethodCall(Box::new(Value::Accessor(Box::new(Value::Identifier("arr".to_string())), Box::new(Value::Integer(0)))), "m1".to_string(), vec![])), "m2".to_string(), vec![]);
    assert_eq!(result, expected);
}

#[test]
fn test_method_chaining_chain_on_mixed_access() {
    let result = parse("obj.arr[0]:m1():m2()");
    let expected = Value::MethodCall(Box::new(Value::MethodCall(Box::new(Value::Accessor(Box::new(Value::Accessor(Box::new(Value::Identifier("obj".to_string())), Box::new(Value::Identifier("arr".to_string())))), Box::new(Value::Integer(0)))), "m1".to_string(), vec![])), "m2".to_string(), vec![]);
    assert_eq!(result, expected);
}

#[test]
fn test_method_chaining_chain_mixed_args() {
    let result = parse("obj:m1(1, \"x\"):m2(2.5, \"y\")");
    let expected = Value::MethodCall(Box::new(Value::MethodCall(Box::new(Value::Identifier("obj".to_string())), "m1".to_string(), vec![Value::Integer(1), Value::String("x".to_string())])), "m2".to_string(), vec![flt(2.5, "2.5"), Value::String("y".to_string())]);
    assert_eq!(result, expected);
}

#[test]
fn test_method_chaining_chain_underscore_names() {
    let result = parse("_obj:_m1():_m2()");
    let expected = Value::MethodCall(Box::new(Value::MethodCall(Box::new(Value::Identifier("_obj".to_string())), "_m1".to_string(), vec![])), "_m2".to_string(), vec![]);
    assert_eq!(result, expected);
}

#[test]
fn test_invalid_syntax_case_1() {
    assert!(r_expr::parse("my_func(my_var)").is_err());
}

#[test]
fn test_invalid_syntax_case_2() {
    assert!(r_expr::parse("my_var[3.14]").is_err());
}

#[test]
fn test_invalid_syntax_case_3() {
    assert!(r_expr::parse("my_var:my_func(obj.field)").is_err());
}

#[test]
fn test_invalid_syntax_case_4() {
    assert!(r_expr::parse("func(arr[0])").is_err());
}

#[test]
fn test_invalid_syntax_case_5() {
    assert!(r_expr::parse("func(nested.prop)").is_err());
}

#[test]
fn test_invalid_syntax_case_6() {
    assert!(r_expr::parse("obj:method(1, nested.x)").is_err());
}

#[test]
fn test_invalid_syntax_case_7() {
    assert!(r_expr::parse("obj[1.5]").is_err());
}

#[test]
fn test_invalid_syntax_case_8() {
    assert!(r_expr::parse("obj[my_func()]").is_err());
}

#[test]
fn test_readme_examples_readme_accessor_simple() {
    let _ = parse("user");
}

#[test]
fn test_readme_examples_readme_accessor_dot() {
    let _ = parse("user.profile");
}

#[test]
fn test_readme_examples_readme_accessor_chained_dot() {
    let _ = parse("user.profile.email");
}

#[test]
fn test_readme_examples_readme_accessor_bracket() {
    let _ = parse("user[\"profile\"]");
}

#[test]
fn test_readme_examples_readme_accessor_chained_bracket() {
    let _ = parse(r#"user["profile"]["email"]"#);
}

#[test]
fn test_readme_examples_readme_accessor_mixed() {
    let _ = parse(r#"user.profile["email"]"#);
}

#[test]
fn test_readme_examples_readme_func_sum() {
    let _ = parse("sum(10, 20)");
}

#[test]
fn test_readme_examples_readme_func_concat() {
    let _ = parse(r#"concat("hello", "world")"#);
}

#[test]
fn test_readme_examples_readme_func_max() {
    let _ = parse("max(42.5, 100, -5)");
}

#[test]
fn test_readme_examples_readme_func_floor() {
    let _ = parse("floor(3.14)");
}

#[test]
fn test_readme_examples_readme_literal_int() {
    let _ = parse("42");
}

#[test]
fn test_readme_examples_readme_literal_float() {
    let _ = parse("3.14");
}

#[test]
fn test_readme_examples_readme_literal_scientific() {
    let _ = parse("-2.5e-3");
}

#[test]
fn test_readme_examples_readme_literal_string() {
    let _ = parse(r#""hello world""#);
}

#[test]
fn test_readme_examples_readme_literal_escaped_string() {
    let _ = parse(r#""escaped \"quotes\"""#);
}

#[test]
fn test_readme_examples_readme_method_simple() {
    let _ = parse("user.profile:transform()");
}

#[test]
fn test_readme_examples_readme_method_bracket() {
    let _ = parse("data[\"items\"]:count()");
}

#[test]
fn test_readme_examples_readme_method_with_args() {
    let _ = parse(r#"collection["data"]["key"]:upper("prefix", "suffix")"#);
}

#[test]
fn test_readme_examples_readme_usecase_sql_sum() {
    let _ = parse("revenue:sum()");
}

#[test]
fn test_readme_examples_readme_usecase_sql_count() {
    let _ = parse(r#"orders["status"]:count()"#);
}

#[test]
fn test_readme_examples_readme_usecase_dsl_cache() {
    let _ = parse("cache.ttl:set(3600)");
}

#[test]
fn test_single_operators_add_simple() {
    let result = parse("1 + 2");
    let expected = Value::BinaryOp(BinaryOperator::Add, Box::new(Value::Integer(1)), Box::new(Value::Integer(2)));
    assert_eq!(result, expected);
}

#[test]
fn test_single_operators_subtract_simple() {
    let result = parse("5 - 3");
    let expected = Value::BinaryOp(BinaryOperator::Subtract, Box::new(Value::Integer(5)), Box::new(Value::Integer(3)));
    assert_eq!(result, expected);
}

#[test]
fn test_single_operators_multiply_simple() {
    let result = parse("3 * 4");
    let expected = Value::BinaryOp(BinaryOperator::Multiply, Box::new(Value::Integer(3)), Box::new(Value::Integer(4)));
    assert_eq!(result, expected);
}

#[test]
fn test_single_operators_divide_simple() {
    let result = parse("10 / 2");
    let expected = Value::BinaryOp(BinaryOperator::Divide, Box::new(Value::Integer(10)), Box::new(Value::Integer(2)));
    assert_eq!(result, expected);
}

#[test]
fn test_single_operators_modulo_simple() {
    let result = parse("10 % 3");
    let expected = Value::BinaryOp(BinaryOperator::Modulo, Box::new(Value::Integer(10)), Box::new(Value::Integer(3)));
    assert_eq!(result, expected);
}

#[test]
fn test_single_operators_equal_simple() {
    let result = parse("1 == 1");
    let expected = Value::BinaryOp(BinaryOperator::Equal, Box::new(Value::Integer(1)), Box::new(Value::Integer(1)));
    assert_eq!(result, expected);
}

#[test]
fn test_single_operators_not_equal_simple() {
    let result = parse("1 != 2");
    let expected = Value::BinaryOp(BinaryOperator::NotEqual, Box::new(Value::Integer(1)), Box::new(Value::Integer(2)));
    assert_eq!(result, expected);
}

#[test]
fn test_single_operators_less_simple() {
    let result = parse("1 < 2");
    let expected = Value::BinaryOp(BinaryOperator::Less, Box::new(Value::Integer(1)), Box::new(Value::Integer(2)));
    assert_eq!(result, expected);
}

#[test]
fn test_single_operators_less_equal_simple() {
    let result = parse("1 <= 2");
    let expected = Value::BinaryOp(BinaryOperator::LessEqual, Box::new(Value::Integer(1)), Box::new(Value::Integer(2)));
    assert_eq!(result, expected);
}

#[test]
fn test_single_operators_greater_simple() {
    let result = parse("2 > 1");
    let expected = Value::BinaryOp(BinaryOperator::Greater, Box::new(Value::Integer(2)), Box::new(Value::Integer(1)));
    assert_eq!(result, expected);
}

#[test]
fn test_single_operators_greater_equal_simple() {
    let result = parse("2 >= 1");
    let expected = Value::BinaryOp(BinaryOperator::GreaterEqual, Box::new(Value::Integer(2)), Box::new(Value::Integer(1)));
    assert_eq!(result, expected);
}

#[test]
fn test_single_operators_and_simple() {
    let result = parse("1 && 2");
    let expected = Value::BinaryOp(BinaryOperator::And, Box::new(Value::Integer(1)), Box::new(Value::Integer(2)));
    assert_eq!(result, expected);
}

#[test]
fn test_single_operators_or_simple() {
    let result = parse("1 || 2");
    let expected = Value::BinaryOp(BinaryOperator::Or, Box::new(Value::Integer(1)), Box::new(Value::Integer(2)));
    assert_eq!(result, expected);
}

#[test]
fn test_single_operators_not_unary() {
    let result = parse("!a");
    let expected = Value::UnaryOp(UnaryOperator::Not, Box::new(Value::Identifier("a".to_string())));
    assert_eq!(result, expected);
}

#[test]
fn test_single_operators_negate_unary() {
    let result = parse("-5");
    let expected = Value::UnaryOp(UnaryOperator::Negate, Box::new(Value::Integer(5)));
    assert_eq!(result, expected);
}

#[test]
fn test_single_operators_bitnot_unary() {
    let result = parse("~x");
    let expected = Value::UnaryOp(UnaryOperator::BitwiseNot, Box::new(Value::Identifier("x".to_string())));
    assert_eq!(result, expected);
}

#[test]
fn test_operator_precedence_multiply_before_add() {
    let result = parse("1 + 2 * 3");
    let expected = Value::BinaryOp(BinaryOperator::Add, 
            Box::new(Value::Integer(1)),
            Box::new(Value::BinaryOp(BinaryOperator::Multiply, 
                Box::new(Value::Integer(2)), 
                Box::new(Value::Integer(3)))));
    assert_eq!(result, expected);
}

#[test]
fn test_operator_precedence_divide_before_subtract() {
    let result = parse("10 - 6 / 2");
    let expected = Value::BinaryOp(BinaryOperator::Subtract, 
            Box::new(Value::Integer(10)),
            Box::new(Value::BinaryOp(BinaryOperator::Divide, 
                Box::new(Value::Integer(6)), 
                Box::new(Value::Integer(2)))));
    assert_eq!(result, expected);
}

#[test]
fn test_operator_precedence_comparison_before_and() {
    let result = parse("1 < 2 && 3 < 4");
    let expected = Value::BinaryOp(BinaryOperator::And,
            Box::new(Value::BinaryOp(BinaryOperator::Less, Box::new(Value::Integer(1)), Box::new(Value::Integer(2)))),
            Box::new(Value::BinaryOp(BinaryOperator::Less, Box::new(Value::Integer(3)), Box::new(Value::Integer(4)))));
    assert_eq!(result, expected);
}

#[test]
fn test_operator_precedence_and_before_or() {
    let result = parse("true || false && false");
    let expected = Value::BinaryOp(BinaryOperator::Or,
            Box::new(Value::Identifier("true".to_string())),
            Box::new(Value::BinaryOp(BinaryOperator::And, 
                Box::new(Value::Identifier("false".to_string())), 
                Box::new(Value::Identifier("false".to_string())))));
    assert_eq!(result, expected);
}

#[test]
fn test_parentheses_parens_override_mult_add() {
    let result = parse("(1 + 2) * 3");
    let expected = Value::BinaryOp(BinaryOperator::Multiply, 
            Box::new(Value::BinaryOp(BinaryOperator::Add, 
                Box::new(Value::Integer(1)), 
                Box::new(Value::Integer(2)))),
            Box::new(Value::Integer(3)));
    assert_eq!(result, expected);
}

#[test]
fn test_parentheses_parens_override_or() {
    let result = parse("(a || b) && c");
    let expected = Value::BinaryOp(BinaryOperator::And,
            Box::new(Value::BinaryOp(BinaryOperator::Or, 
                Box::new(Value::Identifier("a".to_string())), 
                Box::new(Value::Identifier("b".to_string())))),
            Box::new(Value::Identifier("c".to_string())));
    assert_eq!(result, expected);
}

#[test]
fn test_parentheses_nested_parens() {
    let result = parse("((1 + 2) * 3) - 4");
    let expected = Value::BinaryOp(BinaryOperator::Subtract,
            Box::new(Value::BinaryOp(BinaryOperator::Multiply, 
                Box::new(Value::BinaryOp(BinaryOperator::Add, 
                    Box::new(Value::Integer(1)), 
                    Box::new(Value::Integer(2)))),
                Box::new(Value::Integer(3)))),
            Box::new(Value::Integer(4)));
    assert_eq!(result, expected);
}

#[test]
fn test_associativity_left_assoc_subtract() {
    let result = parse("1 - 2 - 3");
    let expected = Value::BinaryOp(BinaryOperator::Subtract,
            Box::new(Value::BinaryOp(BinaryOperator::Subtract, 
                Box::new(Value::Integer(1)), 
                Box::new(Value::Integer(2)))),
            Box::new(Value::Integer(3)));
    assert_eq!(result, expected);
}

#[test]
fn test_associativity_left_assoc_divide() {
    let result = parse("20 / 4 / 2");
    let expected = Value::BinaryOp(BinaryOperator::Divide,
            Box::new(Value::BinaryOp(BinaryOperator::Divide, 
                Box::new(Value::Integer(20)), 
                Box::new(Value::Integer(4)))),
            Box::new(Value::Integer(2)));
    assert_eq!(result, expected);
}

#[test]
fn test_chained_unary_double_negation() {
    let result = parse("!!a");
    let expected = Value::UnaryOp(UnaryOperator::Not, 
            Box::new(Value::UnaryOp(UnaryOperator::Not, 
                Box::new(Value::Identifier("a".to_string())))));
    assert_eq!(result, expected);
}

#[test]
fn test_chained_unary_double_negation_value() {
    let result = parse("-(-5)");
    let expected = Value::UnaryOp(UnaryOperator::Negate, 
            Box::new(Value::UnaryOp(UnaryOperator::Negate, 
                Box::new(Value::Integer(5)))));
    assert_eq!(result, expected);
}

#[test]
fn test_chained_unary_triple_negate() {
    let result = parse("---5");
    let expected = Value::UnaryOp(UnaryOperator::Negate,
            Box::new(Value::UnaryOp(UnaryOperator::Negate,
                Box::new(Value::UnaryOp(UnaryOperator::Negate,
                    Box::new(Value::Integer(5)))))));
    assert_eq!(result, expected);
}

#[test]
fn test_mixed_operators_with_values_operators_with_accessor() {
    let result = parse("user.age > 18");
    let expected = Value::BinaryOp(BinaryOperator::Greater,
            Box::new(Value::Accessor(
                Box::new(Value::Identifier("user".to_string())),
                Box::new(Value::Identifier("age".to_string())))),
            Box::new(Value::Integer(18)));
    assert_eq!(result, expected);
}

#[test]
fn test_mixed_operators_with_values_operators_with_function_call() {
    let result = parse("getValue() + 5");
    let expected = Value::BinaryOp(BinaryOperator::Add,
            Box::new(Value::FunctionCall("getValue".to_string(), vec![])),
            Box::new(Value::Integer(5)));
    assert_eq!(result, expected);
}

#[test]
fn test_mixed_operators_with_values_complex_logic() {
    let result = parse("a.b > 5 && c() == \"x\"");
    let expected = Value::BinaryOp(BinaryOperator::And,
            Box::new(Value::BinaryOp(BinaryOperator::Greater,
                Box::new(Value::Accessor(
                    Box::new(Value::Identifier("a".to_string())),
                    Box::new(Value::Identifier("b".to_string())))),
                Box::new(Value::Integer(5)))),
            Box::new(Value::BinaryOp(BinaryOperator::Equal,
                Box::new(Value::FunctionCall("c".to_string(), vec![])),
                Box::new(Value::String("x".to_string())))));
    assert_eq!(result, expected);
}

#[test]
fn test_operators_with_various_types_float_add() {
    let result = parse("1.5 + 2.5");
    let expected = Value::BinaryOp(BinaryOperator::Add,
            Box::new(flt(1.5, "1.5")),
            Box::new(flt(2.5, "2.5")));
    assert_eq!(result, expected);
}

#[test]
fn test_operators_with_various_types_string_compare() {
    let result = parse(r#""hello" == "hello""#);
    let expected = Value::BinaryOp(BinaryOperator::Equal,
            Box::new(Value::String("hello".to_string())),
            Box::new(Value::String("hello".to_string())));
    assert_eq!(result, expected);
}

#[test]
fn test_operators_with_various_types_mixed_numeric() {
    let result = parse("1 + 2.5");
    let expected = Value::BinaryOp(BinaryOperator::Add,
            Box::new(Value::Integer(1)),
            Box::new(flt(2.5, "2.5")));
    assert_eq!(result, expected);
}
