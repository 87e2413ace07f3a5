use r_expr::sql::{SqlBinOper, SqlConversionError, SqlExpr, SqlUnOper, SqlValue};
use r_expr::{BinaryOperator, ToSeaQuery, Value};

fn parse(input: &str) -> Value {
    assert!(r_expr::check_integer_range(input));
    r_expr::parse(input).expect("Failed to parse input")
}

fn to_sql(input: &str) -> SqlExpr {
    let value = parse(input);
    assert_eq!(value.sql_conversion_error(), None);
    value.to_sea_query()
}

fn col(name: &str) -> SqlExpr {
    SqlExpr::Column(name.to_string())
}

fn big(i: i64) -> SqlExpr {
    SqlExpr::Value(SqlValue::BigInt(i))
}

#[test]
fn test_integer_conversion() {
    assert_eq!(to_sql("42"), big(42));
}

#[test]
fn test_identifier_conversion() {
    assert_eq!(to_sql("myField"), col("myField"));
}

#[test]
fn test_binary_add_operation() {
    assert_eq!(to_sql("5 + 3"), SqlExpr::Binary(Box::new(big(5)), SqlBinOper::Add, Box::new(big(3))));
}

#[test]
fn test_binary_comparison_less_than() {
    match to_sql("a < b") {
        SqlExpr::Binary(_, op, _) => assert_eq!(op, SqlBinOper::SmallerThan),
        _ => panic!("Expected SqlExpr::Binary"),
    }
}

#[test]
fn test_unary_not_operation() {
    assert_eq!(to_sql("!flag"), SqlExpr::Unary(SqlUnOper::Not, Box::new(col("flag"))));
}

#[test]
fn test_unary_negate_operation() {
    assert_eq!(to_sql("-10"), SqlExpr::Binary(Box::new(big(-1)), SqlBinOper::Mul, Box::new(big(10))));
}

#[test]
fn test_accessor_extracts_field_name() {
    assert_eq!(to_sql("user.email"), col("email"));
}

#[test]
fn test_function_call_conversion() {
    assert_eq!(to_sql("max(42)"), SqlExpr::FunctionCall("max".to_string(), vec![big(42)]));
}

#[test]
fn test_method_call_conversion() {
    assert_eq!(to_sql("items:count()"), SqlExpr::FunctionCall("count".to_string(), vec![col("items")]));
}

#[test]
fn test_method_chaining_two_methods() {
    let inner = SqlExpr::FunctionCall("m1".to_string(), vec![col("obj")]);
    assert_eq!(to_sql("obj:m1():m2()"), SqlExpr::FunctionCall("m2".to_string(), vec![inner]));
}

#[test]
fn test_method_chaining_with_arguments() {
    let inner = SqlExpr::FunctionCall("m1".to_string(), vec![col("obj"), big(5)]);
    assert_eq!(to_sql("obj:m1(5):m2(10)"), SqlExpr::FunctionCall("m2".to_string(), vec![inner, big(10)]));
}

#[test]
fn test_method_chaining_three_deep() {
    let a = SqlExpr::FunctionCall("a".to_string(), vec![col("obj")]);
    let b = SqlExpr::FunctionCall("b".to_string(), vec![a]);
    assert_eq!(to_sql("obj:a():b():c()"), SqlExpr::FunctionCall("c".to_string(), vec![b]));
}

#[test]
fn test_method_chaining_on_accessor() {
    let m1 = SqlExpr::FunctionCall("m1".to_string(), vec![col("prop")]);
    assert_eq!(to_sql("obj.prop:m1():m2()"), SqlExpr::FunctionCall("m2".to_string(), vec![m1]));
}

#[test]
fn sql_literals() {
    assert_eq!(to_sql("1.5e10"), SqlExpr::Value(SqlValue::Double("1.5e10".to_string())));
    assert_eq!(to_sql("\"hello\""), SqlExpr::Value(SqlValue::String("hello".to_string())));
    assert_eq!(to_sql("sum()"), SqlExpr::FunctionCall("sum".to_string(), vec![]));
}

#[test]
fn sql_every_binary_operator() {
    let cases = [
        ("1 + 2", SqlBinOper::Add),
        ("10 - 5", SqlBinOper::Sub),
        ("3 * 4", SqlBinOper::Mul),
        ("20 / 4", SqlBinOper::Div),
        ("10 % 3", SqlBinOper::Mod),
        ("a == b", SqlBinOper::Equal),
        ("a != b", SqlBinOper::NotEqual),
        ("a <= b", SqlBinOper::SmallerThanOrEqual),
        ("a > b", SqlBinOper::GreaterThan),
        ("a >= b", SqlBinOper::GreaterThanOrEqual),
        ("a && b", SqlBinOper::And),
        ("a || b", SqlBinOper::Or),
    ];
    for (input, expected) in cases {
        match to_sql(input) {
            SqlExpr::Binary(_, op, _) => assert_eq!(op, expected),
            _ => panic!("Expected SqlExpr::Binary for {}", input),
        }
    }
    assert_eq!(BinaryOperator::Less.to_sql_oper(), SqlBinOper::SmallerThan);
}

#[test]
fn sql_accessor_with_index_field_is_refused() {
    assert_eq!(parse("arr[0]").sql_conversion_error(), Some(SqlConversionError::AccessorFieldNotIdentifier));
    assert_eq!(parse("a + data[\"k\"]").sql_conversion_error(), Some(SqlConversionError::AccessorFieldNotIdentifier));
}

#[test]
fn sql_bitwise_not_is_refused() {
    assert_eq!(parse("~x").sql_conversion_error(), Some(SqlConversionError::BitwiseNotUnsupported));
    // the operand is converted before the operator is looked at
    assert_eq!(parse("~arr[1]").sql_conversion_error(), Some(SqlConversionError::AccessorFieldNotIdentifier));
    // the left operand is converted before the right one
    assert_eq!(parse("~a + b[0]").sql_conversion_error(), Some(SqlConversionError::BitwiseNotUnsupported));
}

#[test]
fn sql_accessor_base_is_not_converted() {
    // only the field of an accessor is read
    assert_eq!(to_sql("a[0].b"), col("b"));
}

fn dbl(t: &str) -> SqlExpr {
    SqlExpr::Value(SqlValue::Double(t.to_string()))
}

fn text(t: &str) -> SqlExpr {
    SqlExpr::Value(SqlValue::String(t.to_string()))
}

fn call(name: &str, args: Vec<SqlExpr>) -> SqlExpr {
    SqlExpr::FunctionCall(name.to_string(), args)
}

#[test]
fn test_to_sea_query_literals_and_functions_integer_zero() {
    assert_eq!(to_sql("0"), big(0));
}

#[test]
fn test_to_sea_query_literals_and_functions_integer_positive() {
    assert_eq!(to_sql("42"), big(42));
}

#[test]
fn test_to_sea_query_literals_and_functions_integer_negative() {
    assert_eq!(to_sql("-15"), SqlExpr::Binary(Box::new(big(-1)), SqlBinOper::Mul, Box::new(big(15))));
}

#[test]
fn test_to_sea_query_literals_and_functions_integer_large() {
    assert_eq!(to_sql("999999999"), big(999999999));
}

#[test]
fn test_to_sea_query_literals_and_functions_float_simple() {
    assert_eq!(to_sql("1.5"), dbl("1.5"));
}

#[test]
fn test_to_sea_query_literals_and_functions_float_zero() {
    assert_eq!(to_sql("0.0"), dbl("0.0"));
}

#[test]
fn test_to_sea_query_literals_and_functions_float_scientific() {
    assert_eq!(to_sql("1.5e10"), dbl("1.5e10"));
}

#[test]
fn test_to_sea_query_literals_and_functions_float_scientific_negative() {
    assert_eq!(to_sql("1.5e-10"), dbl("1.5e-10"));
}

#[test]
fn test_to_sea_query_literals_and_functions_string_simple() {
    assert_eq!(to_sql(r#""hello""#), text("hello"));
}

#[test]
fn test_to_sea_query_literals_and_functions_string_empty() {
    assert_eq!(to_sql(r#""""#), text(""));
}

#[test]
fn test_to_sea_query_literals_and_functions_string_with_spaces() {
    assert_eq!(to_sql(r#""hello world""#), text("hello world"));
}

#[test]
fn test_to_sea_query_literals_and_functions_identifier_simple() {
    assert_eq!(to_sql("id"), col("id"));
}

#[test]
fn test_to_sea_query_literals_and_functions_identifier_snake_case() {
    assert_eq!(to_sql("user_id"), col("user_id"));
}

#[test]
fn test_to_sea_query_literals_and_functions_identifier_with_numbers() {
    assert_eq!(to_sql("field123"), col("field123"));
}

#[test]
fn test_to_sea_query_literals_and_functions_accessor_simple() {
    assert_eq!(to_sql("obj.field"), col("field"));
}

#[test]
fn test_to_sea_query_literals_and_functions_accessor_chained() {
    assert_eq!(to_sql("a.b.c"), col("c"));
}

#[test]
fn test_to_sea_query_literals_and_functions_accessor_with_underscore() {
    assert_eq!(to_sql("user.email_address"), col("email_address"));
}

#[test]
fn test_to_sea_query_literals_and_functions_function_no_args() {
    assert_eq!(to_sql("sum()"), call("sum", vec![]));
}

#[test]
fn test_to_sea_query_literals_and_functions_function_one_arg() {
    assert_eq!(to_sql("max(42)"), call("max", vec![big(42)]));
}

#[test]
fn test_to_sea_query_literals_and_functions_function_multiple_args() {
    assert_eq!(to_sql("add(10, 20)"), call("add", vec![big(10), big(20)]));
}

#[test]
fn test_unary_operators_unary_not() {
    assert_eq!(to_sql("!a"), SqlExpr::Unary(SqlUnOper::Not, Box::new(col("a"))));
}

#[test]
fn test_unary_operators_unary_negate() {
    assert_eq!(to_sql("-10"), SqlExpr::Binary(Box::new(big(-1)), SqlBinOper::Mul, Box::new(big(10))));
}

#[test]
fn test_binary_operators_binary_add() {
    assert_eq!(to_sql("1 + 2"), SqlExpr::Binary(Box::new(big(1)), SqlBinOper::Add, Box::new(big(2))));
}

#[test]
fn test_binary_operators_binary_subtract() {
    assert_eq!(to_sql("10 - 5"), SqlExpr::Binary(Box::new(big(10)), SqlBinOper::Sub, Box::new(big(5))));
}

#[test]
fn test_binary_operators_binary_multiply() {
    assert_eq!(to_sql("3 * 4"), SqlExpr::Binary(Box::new(big(3)), SqlBinOper::Mul, Box::new(big(4))));
}

#[test]
fn test_binary_operators_binary_divide() {
    assert_eq!(to_sql("20 / 4"), SqlExpr::Binary(Box::new(big(20)), SqlBinOper::Div, Box::new(big(4))));
}

#[test]
fn test_binary_operators_binary_modulo() {
    assert_eq!(to_sql("10 % 3"), SqlExpr::Binary(Box::new(big(10)), SqlBinOper::Mod, Box::new(big(3))));
}

#[test]
fn test_binary_operators_binary_equal() {
    assert_eq!(to_sql("a == b"), SqlExpr::Binary(Box::new(col("a")), SqlBinOper::Equal, Box::new(col("b"))));
}

#[test]
fn test_binary_operators_binary_not_equal() {
    assert_eq!(to_sql("a != b"), SqlExpr::Binary(Box::new(col("a")), SqlBinOper::NotEqual, Box::new(col("b"))));
}

#[test]
fn test_binary_operators_binary_less() {
    assert_eq!(to_sql("a < b"), SqlExpr::Binary(Box::new(col("a")), SqlBinOper::SmallerThan, Box::new(col("b"))));
}

#[test]
fn test_binary_operators_binary_less_equal() {
    assert_eq!(to_sql("a <= b"), SqlExpr::Binary(Box::new(col("a")), SqlBinOper::SmallerThanOrEqual, Box::new(col("b"))));
}

#[test]
fn test_binary_operators_binary_greater() {
    assert_eq!(to_sql("a > b"), SqlExpr::Binary(Box::new(col("a")), SqlBinOper::GreaterThan, Box::new(col("b"))));
}

#[test]
fn test_binary_operators_binary_greater_equal() {
    assert_eq!(to_sql("a >= b"), SqlExpr::Binary(Box::new(col("a")), SqlBinOper::GreaterThanOrEqual, Box::new(col("b"))));
}

#[test]
fn test_binary_operators_binary_and() {
    assert_eq!(to_sql("a && b"), SqlExpr::Binary(Box::new(col("a")), SqlBinOper::And, Box::new(col("b"))));
}

#[test]
fn test_binary_operators_binary_or() {
    assert_eq!(to_sql("a || b"), SqlExpr::Binary(Box::new(col("a")), SqlBinOper::Or, Box::new(col("b"))));
}

#[test]
fn test_method_calls_method_no_args() {
    assert_eq!(to_sql("items:count()"), call("count", vec![col("items")]));
}

#[test]
fn test_method_calls_method_one_arg() {
    assert_eq!(to_sql("values:max(10)"), call("max", vec![col("values"), big(10)]));
}

#[test]
fn test_method_calls_method_multiple_args() {
    assert_eq!(to_sql("data:filter(1, 2)"), call("filter", vec![col("data"), big(1), big(2)]));
}

#[test]
fn sea_query_method_chaining_chain_two_simple() {
    assert_eq!(to_sql("obj:m1():m2()"), call("m2", vec![call("m1", vec![col("obj")])]));
}

#[test]
fn sea_query_method_chaining_chain_two_with_args() {
    assert_eq!(to_sql("obj:m1(5):m2(10)"), call("m2", vec![call("m1", vec![col("obj"), big(5)]), big(10)]));
}

#[test]
fn sea_query_method_chaining_chain_two_mixed_args() {
    assert_eq!(to_sql(r#"obj:m1("x"):m2(5)"#), call("m2", vec![call("m1", vec![col("obj"), text("x")]), big(5)]));
}

#[test]
fn sea_query_method_chaining_chain_three() {
    assert_eq!(to_sql("obj:m1():m2():m3()"), call("m3", vec![call("m2", vec![call("m1", vec![col("obj")])])]));
}

#[test]
fn sea_query_method_chaining_chain_three_with_args() {
    assert_eq!(to_sql("obj:m1(1):m2(2):m3(3)"), call("m3", vec![call("m2", vec![call("m1", vec![col("obj"), big(1)]), big(2)]), big(3)]));
}

#[test]
fn sea_query_method_chaining_chain_on_accessor() {
    assert_eq!(to_sql("obj.prop:m1():m2()"), call("m2", vec![call("m1", vec![col("prop")])]));
}

#[test]
fn sea_query_method_chaining_chain_on_accessor_with_args() {
    assert_eq!(to_sql("obj.data:process(5):filter(10)"), call("filter", vec![call("process", vec![col("data"), big(5)]), big(10)]));
}

#[test]
fn sea_query_method_chaining_chain_four() {
    assert_eq!(to_sql("obj:a():b():c():d()"), call("d", vec![call("c", vec![call("b", vec![call("a", vec![col("obj")])])])]));
}
