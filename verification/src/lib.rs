//! Parses expression strings such as `user.profile:transform()` or `a.b > 5 && c() == "x"`
//! into a `Value` tree: accessor chains, function and method calls, literals, and unary
//! and binary operators with the usual precedence.
use vstd::prelude::*;

pub mod chains;
pub mod context;
pub mod grammar;
pub mod laws;
pub mod literals;
pub mod parens;
pub mod parser;
pub mod precedence;
pub mod prefix;
pub mod sql;
pub mod text;
pub mod unescape;
pub mod value;

pub use grammar::{ParseError, spec_parse};
pub use parser::RExprParser;
pub use sql::ToSeaQuery;
pub use unescape::unescape_string;
pub use value::{BinaryOperator, UnaryOperator, Value, SpecValue, integers_fit};

verus! {

/// Every integer literal of the expression written in `s` fits in an `i64`; true where
/// `s` is not an expression.
pub open spec fn integers_in_range(s: Seq<char>) -> bool {
    match spec_parse(s) {
        Ok(v) => integers_fit(v),
        Err(_) => true,
    }
}

/// Parses a single expression string into a `Value`: the whole input must be one
/// expression, with whitespace around and between its tokens allowed.
///
/// On success the value is the one the grammar (module `grammar`) gives; otherwise the
/// error says where no expression starts, where the input goes on after one,
/// or that the input is an expression with an integer literal outside the `i64` range.
pub fn parse(input: &str) -> (res: Result<Value, ParseError>)
    ensures
        match spec_parse(input@) {
            Ok(v) => if integers_fit(v) {
                res is Ok && res->Ok_0@ == v
            } else {
                res == Err::<Value, ParseError>(ParseError::IntegerOutOfRange)
            },
            Err(e) => res == Err::<Value, ParseError>(e),
        },
{
    let s = text::chars_of(input);
    let (res, _) = RExprParser::parse_program(&s);
    res
}

/// Whether every integer literal of the expression written in `input` fits in an `i64`:
/// where it is an expression, `parse` answers `IntegerOutOfRange` exactly when this is false.
pub fn check_integer_range(input: &str) -> (b: bool)
    ensures
        b == integers_in_range(input@),
{
    let s = text::chars_of(input);
    let (_, big) = RExprParser::parse_program(&s);
    !big
}

} // verus!
