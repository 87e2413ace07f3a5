//! The expression grammar, as spec functions over the characters of the input.
//!
//! Every rule takes the input `s` and a position `p` and answers with the position just
//! after the text it matched and what it built, or `None` where it does not match.
//! Choices are ordered, repetitions are greedy and never give text back, and whitespace
//! (space, tab, newline, carriage return) may stand between any two tokens but not inside
//! a literal or an identifier:
//!
//! ```text
//! program        = SOI logical_or EOI
//! logical_or     = logical_and ("||" logical_and)*
//! logical_and    = comparison ("&&" comparison)*
//! comparison     = additive (cmp_op additive)*
//! cmp_op         = "==" | "!=" | "<=" | ">=" | "<" | ">"
//! additive       = multiplicative (("+" | "-") multiplicative)*
//! multiplicative = unary (("*" | "/" | "%") unary)*
//! unary          = ("!" | "-" | "~") unary | primary
//! primary        = "(" logical_or ")" | value
//! value          = method_call | function_call | accessor_chain | float | integer | string
//! method_call    = accessor_chain method_suffix+
//! method_suffix  = ":" identifier "(" (arg ("," arg)*)? ")"
//! function_call  = identifier "(" (arg ("," arg)*)? ")"
//! accessor_chain = identifier ("." identifier | "[" index_value "]")*
//! index_value    = integer_with_sign | string
//! arg            = float_with_sign | integer_with_sign | string
//! identifier     = (ASCII letter | "_") (ASCII letter | digit | "_")*
//! integer        = digit+                 integer_with_sign = "-"? digit+
//! float          = digit+ "." digit+ (("e" | "E") ("+" | "-")? digit+)?
//! float_with_sign = "-"? float
//! string         = '"' ("\" any | any but '"' and "\")* '"'
//! ```
//!
//! Binary operators of one level associate to the left; method calls chain to the left.
//! A few rules carry a bounds check on what a sub-rule answered (`p < r <= s.len()`);
//! these checks always hold, and they let Verus see that the definitions terminate.
use vstd::prelude::*;
use crate::value::{BinaryOperator, UnaryOperator, SpecValue};
use crate::unescape::spec_unescape;

verus! {

/// True for the characters that separate tokens.
pub open spec fn is_ws(c: char) -> bool {
    c == ' ' || c == '\t' || c == '\n' || c == '\r'
}

pub open spec fn is_digit(c: char) -> bool {
    '0' <= c <= '9'
}

pub open spec fn is_ident_start(c: char) -> bool {
    ('a' <= c <= 'z') || ('A' <= c <= 'Z') || c == '_'
}

pub open spec fn is_ident_char(c: char) -> bool {
    is_ident_start(c) || is_digit(c)
}

/// `s` holds `c` at position `p`.
pub open spec fn at(s: Seq<char>, p: int, c: char) -> bool {
    0 <= p < s.len() && s[p] == c
}

/// The first of two alternatives that matches.
pub open spec fn or_else<T>(a: Option<T>, b: Option<T>) -> Option<T> {
    if a is Some {
        a
    } else {
        b
    }
}

/// The position after the whitespace that starts at `p`.
pub open spec fn skip_ws(s: Seq<char>, p: int) -> int
    decreases s.len() - p,
{
    if 0 <= p < s.len() && is_ws(s[p]) {
        skip_ws(s, p + 1)
    } else {
        p
    }
}

/// The position after the digits that start at `p`.
pub open spec fn scan_digits(s: Seq<char>, p: int) -> int
    decreases s.len() - p,
{
    if 0 <= p < s.len() && is_digit(s[p]) {
        scan_digits(s, p + 1)
    } else {
        p
    }
}

/// The position after the identifier characters that start at `p`.
pub open spec fn scan_ident(s: Seq<char>, p: int) -> int
    decreases s.len() - p,
{
    if 0 <= p < s.len() && is_ident_char(s[p]) {
        scan_ident(s, p + 1)
    } else {
        p
    }
}

pub proof fn lemma_skip_ws(s: Seq<char>, p: int)
    requires
        0 <= p <= s.len(),
    ensures
        p <= skip_ws(s, p) <= s.len(),
        forall|i: int| p <= i < skip_ws(s, p) ==> is_ws(#[trigger] s[i]),
        skip_ws(s, p) < s.len() ==> !is_ws(s[skip_ws(s, p)]),
    decreases s.len() - p,
{
    if p < s.len() && is_ws(s[p]) {
        lemma_skip_ws(s, p + 1);
    }
}

pub proof fn lemma_scan_digits(s: Seq<char>, p: int)
    requires
        0 <= p <= s.len(),
    ensures
        p <= scan_digits(s, p) <= s.len(),
        forall|i: int| p <= i < scan_digits(s, p) ==> is_digit(#[trigger] s[i]),
    decreases s.len() - p,
{
    if p < s.len() && is_digit(s[p]) {
        lemma_scan_digits(s, p + 1);
    }
}

pub proof fn lemma_scan_ident(s: Seq<char>, p: int)
    requires
        0 <= p <= s.len(),
    ensures
        p <= scan_ident(s, p) <= s.len(),
    decreases s.len() - p,
{
    if p < s.len() && is_ident_char(s[p]) {
        lemma_scan_ident(s, p + 1);
    }
}

/// The number written by the decimal digits `ds`.
pub open spec fn digits_value(ds: Seq<char>) -> int
    decreases ds.len(),
{
    if ds.len() == 0 {
        0
    } else {
        digits_value(ds.drop_last()) * 10 + (ds.last() as int - '0' as int)
    }
}

/// `identifier`: its end and its text.
pub open spec fn lex_identifier(s: Seq<char>, p: int) -> Option<(int, Seq<char>)> {
    if 0 <= p < s.len() && is_ident_start(s[p]) {
        let e = scan_ident(s, p + 1);
        Some((e, s.subrange(p, e)))
    } else {
        None
    }
}

/// One or more digits at `p`: where they end.
pub open spec fn lex_digits(s: Seq<char>, p: int) -> Option<int> {
    if 0 <= p < s.len() && is_digit(s[p]) {
        Some(scan_digits(s, p + 1))
    } else {
        None
    }
}

/// `integer`.
pub open spec fn lex_integer(s: Seq<char>, p: int) -> Option<(int, SpecValue)> {
    match lex_digits(s, p) {
        Some(e) => Some((e, SpecValue::Integer(digits_value(s.subrange(p, e))))),
        None => None,
    }
}

/// `integer_with_sign`.
pub open spec fn lex_signed_integer(s: Seq<char>, p: int) -> Option<(int, SpecValue)> {
    if at(s, p, '-') {
        match lex_digits(s, p + 1) {
            Some(e) => Some((e, SpecValue::Integer(-digits_value(s.subrange(p + 1, e))))),
            None => None,
        }
    } else {
        lex_integer(s, p)
    }
}

/// Where the optional exponent of a float, looked for at `p`, ends.
pub open spec fn exponent_end(s: Seq<char>, p: int) -> int {
    if at(s, p, 'e') || at(s, p, 'E') {
        let f = if at(s, p + 1, '+') || at(s, p + 1, '-') {
            p + 2
        } else {
            p + 1
        };
        match lex_digits(s, f) {
            Some(e) => e,
            None => p,
        }
    } else {
        p
    }
}

/// Where the unsigned float that starts at `p` ends.
pub open spec fn float_end(s: Seq<char>, p: int) -> Option<int> {
    match lex_digits(s, p) {
        Some(e1) => if at(s, e1, '.') {
            match lex_digits(s, e1 + 1) {
                Some(e2) => Some(exponent_end(s, e2)),
                None => None,
            }
        } else {
            None
        },
        None => None,
    }
}

/// `float`: its text as written.
pub open spec fn lex_float(s: Seq<char>, p: int) -> Option<(int, SpecValue)> {
    match float_end(s, p) {
        Some(e) => Some((e, SpecValue::Float(s.subrange(p, e)))),
        None => None,
    }
}

/// `float_with_sign`: its text as written, sign included.
pub open spec fn lex_signed_float(s: Seq<char>, p: int) -> Option<(int, SpecValue)> {
    let q = if at(s, p, '-') {
        p + 1
    } else {
        p
    };
    match float_end(s, q) {
        Some(e) => Some((e, SpecValue::Float(s.subrange(p, e)))),
        None => None,
    }
}

/// The position of the quote that closes a string whose body starts at `p`.
pub open spec fn string_close(s: Seq<char>, p: int) -> Option<int>
    decreases s.len() - p,
{
    if !(0 <= p < s.len()) {
        None
    } else if s[p] == '"' {
        Some(p)
    } else if s[p] == '\\' {
        if p + 1 < s.len() {
            string_close(s, p + 2)
        } else {
            None
        }
    } else {
        string_close(s, p + 1)
    }
}

/// `string`: its body with the escapes resolved.
pub open spec fn lex_string(s: Seq<char>, p: int) -> Option<(int, SpecValue)> {
    if at(s, p, '"') {
        match string_close(s, p + 1) {
            Some(c) => Some((c + 1, SpecValue::String(spec_unescape(s.subrange(p + 1, c))))),
            None => None,
        }
    } else {
        None
    }
}

/// `arg`: a literal argument of a call.
pub open spec fn parse_arg(s: Seq<char>, p: int) -> Option<(int, SpecValue)> {
    let q = skip_ws(s, p);
    or_else(lex_signed_float(s, q), or_else(lex_signed_integer(s, q), lex_string(s, q)))
}

/// `("," arg)*`, appending the arguments to `acc`.
pub open spec fn parse_args_rest(s: Seq<char>, p: int, acc: Seq<SpecValue>) -> (int, Seq<SpecValue>)
    decreases s.len() - p,
{
    let q = skip_ws(s, p);
    if at(s, q, ',') {
        match parse_arg(s, q + 1) {
            Some((r, a)) => if p < r <= s.len() {
                parse_args_rest(s, r, acc.push(a))
            } else {
                (p, acc)
            },
            None => (p, acc),
        }
    } else {
        (p, acc)
    }
}

/// `(arg ("," arg)*)? ")"`, from just after the opening parenthesis.
pub open spec fn parse_call_args(s: Seq<char>, p: int) -> Option<(int, Seq<SpecValue>)> {
    let (q, args) = match parse_arg(s, p) {
        Some((r, a)) => if p < r <= s.len() {
            parse_args_rest(s, r, seq![a])
        } else {
            (p, Seq::empty())
        },
        None => (p, Seq::empty()),
    };
    let t = skip_ws(s, q);
    if at(s, t, ')') {
        Some((t + 1, args))
    } else {
        None
    }
}

/// `index_value`.
pub open spec fn parse_index_value(s: Seq<char>, p: int) -> Option<(int, SpecValue)> {
    or_else(lex_signed_integer(s, p), lex_string(s, p))
}

/// One accessor suffix, `"." identifier` or `"[" index_value "]"`: the key it names.
pub open spec fn parse_accessor_suffix(s: Seq<char>, p: int) -> Option<(int, SpecValue)> {
    let q = skip_ws(s, p);
    if at(s, q, '.') {
        match lex_identifier(s, skip_ws(s, q + 1)) {
            Some((r, name)) => Some((r, SpecValue::Identifier(name))),
            None => None,
        }
    } else if at(s, q, '[') {
        match parse_index_value(s, skip_ws(s, q + 1)) {
            Some((r, key)) => {
                let t = skip_ws(s, r);
                if at(s, t, ']') {
                    Some((t + 1, key))
                } else {
                    None
                }
            },
            None => None,
        }
    } else {
        None
    }
}

/// The accessor suffixes after `base`, each wrapping what came before.
pub open spec fn parse_accessor_rest(s: Seq<char>, p: int, base: SpecValue) -> (int, SpecValue)
    decreases s.len() - p,
{
    match parse_accessor_suffix(s, p) {
        Some((r, key)) => if p < r <= s.len() {
            parse_accessor_rest(s, r, SpecValue::Accessor(Box::new(base), Box::new(key)))
        } else {
            (p, base)
        },
        None => (p, base),
    }
}

/// `accessor_chain`.
pub open spec fn parse_accessor_chain(s: Seq<char>, p: int) -> Option<(int, SpecValue)> {
    match lex_identifier(s, p) {
        Some((q, name)) => Some(parse_accessor_rest(s, q, SpecValue::Identifier(name))),
        None => None,
    }
}

/// `function_call`.
pub open spec fn parse_function_call(s: Seq<char>, p: int) -> Option<(int, SpecValue)> {
    match lex_identifier(s, p) {
        Some((q, name)) => {
            let t = skip_ws(s, q);
            if at(s, t, '(') {
                match parse_call_args(s, t + 1) {
                    Some((r, args)) => Some((r, SpecValue::FunctionCall(name, args))),
                    None => None,
                }
            } else {
                None
            }
        },
        None => None,
    }
}

/// `method_suffix`: the method's name and arguments.
pub open spec fn parse_method_suffix(s: Seq<char>, p: int) -> Option<(int, Seq<char>, Seq<SpecValue>)> {
    let q = skip_ws(s, p);
    if at(s, q, ':') {
        match lex_identifier(s, skip_ws(s, q + 1)) {
            Some((r, name)) => {
                let t = skip_ws(s, r);
                if at(s, t, '(') {
                    match parse_call_args(s, t + 1) {
                        Some((u, args)) => Some((u, name, args)),
                        None => None,
                    }
                } else {
                    None
                }
            },
            None => None,
        }
    } else {
        None
    }
}

/// The method suffixes after `recv`, each calling a method on what came before.
pub open spec fn parse_method_rest(s: Seq<char>, p: int, recv: SpecValue) -> (int, SpecValue)
    decreases s.len() - p,
{
    match parse_method_suffix(s, p) {
        Some((r, name, args)) => if p < r <= s.len() {
            parse_method_rest(s, r, SpecValue::MethodCall(Box::new(recv), name, args))
        } else {
            (p, recv)
        },
        None => (p, recv),
    }
}

/// `method_call`.
pub open spec fn parse_method_call(s: Seq<char>, p: int) -> Option<(int, SpecValue)> {
    match parse_accessor_chain(s, p) {
        Some((q, base)) => match parse_method_suffix(s, q) {
            Some((r, name, args)) => if q < r <= s.len() {
                Some(parse_method_rest(s, r, SpecValue::MethodCall(Box::new(base), name, args)))
            } else {
                None
            },
            None => None,
        },
        None => None,
    }
}

/// `value`.
pub open spec fn parse_value(s: Seq<char>, p: int) -> Option<(int, SpecValue)> {
    let q = skip_ws(s, p);
    or_else(
        parse_method_call(s, q),
        or_else(
            parse_function_call(s, q),
            or_else(
                parse_accessor_chain(s, q),
                or_else(lex_float(s, q), or_else(lex_integer(s, q), lex_string(s, q))),
            ),
        ),
    )
}

/// The binary operator of the given precedence level that starts at `q`, and where it ends.
/// Level 4 is `||`, 3 is `&&`, 2 the comparisons, 1 `+ -`, 0 `* / %`.
pub open spec fn match_op(s: Seq<char>, q: int, level: nat) -> Option<(int, BinaryOperator)> {
    if level == 4 {
        if at(s, q, '|') && at(s, q + 1, '|') {
            Some((q + 2, BinaryOperator::Or))
        } else {
            None
        }
    } else if level == 3 {
        if at(s, q, '&') && at(s, q + 1, '&') {
            Some((q + 2, BinaryOperator::And))
        } else {
            None
        }
    } else if level == 2 {
        if at(s, q, '=') && at(s, q + 1, '=') {
            Some((q + 2, BinaryOperator::Equal))
        } else if at(s, q, '!') && at(s, q + 1, '=') {
            Some((q + 2, BinaryOperator::NotEqual))
        } else if at(s, q, '<') && at(s, q + 1, '=') {
            Some((q + 2, BinaryOperator::LessEqual))
        } else if at(s, q, '>') && at(s, q + 1, '=') {
            Some((q + 2, BinaryOperator::GreaterEqual))
        } else if at(s, q, '<') {
            Some((q + 1, BinaryOperator::Less))
        } else if at(s, q, '>') {
            Some((q + 1, BinaryOperator::Greater))
        } else {
            None
        }
    } else if level == 1 {
        if at(s, q, '+') {
            Some((q + 1, BinaryOperator::Add))
        } else if at(s, q, '-') {
            Some((q + 1, BinaryOperator::Subtract))
        } else {
            None
        }
    } else {
        if at(s, q, '*') {
            Some((q + 1, BinaryOperator::Multiply))
        } else if at(s, q, '/') {
            Some((q + 1, BinaryOperator::Divide))
        } else if at(s, q, '%') {
            Some((q + 1, BinaryOperator::Modulo))
        } else {
            None
        }
    }
}

/// The prefix operator at `q`.
pub open spec fn match_unary_op(s: Seq<char>, q: int) -> Option<UnaryOperator> {
    if at(s, q, '!') {
        Some(UnaryOperator::Not)
    } else if at(s, q, '-') {
        Some(UnaryOperator::Negate)
    } else if at(s, q, '~') {
        Some(UnaryOperator::BitwiseNot)
    } else {
        None
    }
}

/// The binary rule of the given level: `logical_or` (4), `logical_and` (3), `comparison` (2),
/// `additive` (1), `multiplicative` (0).
pub open spec fn parse_binary(s: Seq<char>, p: int, level: nat) -> Option<(int, SpecValue)>
    decreases s.len() - p, 2 * level + 3,
{
    let first = if level == 0 {
        parse_unary(s, p)
    } else {
        parse_binary(s, p, (level - 1) as nat)
    };
    match first {
        Some((q, left)) => if p <= q <= s.len() {
            Some(parse_binary_rest(s, q, level, left))
        } else {
            None
        },
        None => None,
    }
}

/// The `(operator operand)*` part of a binary rule, folding to the left onto `left`.
pub open spec fn parse_binary_rest(s: Seq<char>, p: int, level: nat, left: SpecValue) -> (
    int,
    SpecValue,
)
    decreases s.len() - p, 2 * level + 2,
{
    let q = skip_ws(s, p);
    if 0 <= p <= s.len() {
        match match_op(s, q, level) {
            Some((r, op)) => {
                proof {
                    lemma_skip_ws(s, p);
                }
                let operand = if level == 0 {
                    parse_unary(s, r)
                } else {
                    parse_binary(s, r, (level - 1) as nat)
                };
                match operand {
                    Some((t, right)) => if r <= t <= s.len() {
                        parse_binary_rest(
                            s,
                            t,
                            level,
                            SpecValue::BinaryOp(op, Box::new(left), Box::new(right)),
                        )
                    } else {
                        (p, left)
                    },
                    None => (p, left),
                }
            },
            None => (p, left),
        }
    } else {
        (p, left)
    }
}

/// `unary`.
pub open spec fn parse_unary(s: Seq<char>, p: int) -> Option<(int, SpecValue)>
    decreases s.len() - p, 1int,
{
    if 0 <= p <= s.len() {
        let q = skip_ws(s, p);
        proof {
            lemma_skip_ws(s, p);
        }
        match match_unary_op(s, q) {
            Some(op) => match parse_unary(s, q + 1) {
                Some((r, v)) => Some((r, SpecValue::UnaryOp(op, Box::new(v)))),
                None => parse_primary(s, q),
            },
            None => parse_primary(s, q),
        }
    } else {
        None
    }
}

/// `primary`.
pub open spec fn parse_primary(s: Seq<char>, p: int) -> Option<(int, SpecValue)>
    decreases s.len() - p, 0int,
{
    if 0 <= p <= s.len() {
        let q = skip_ws(s, p);
        proof {
            lemma_skip_ws(s, p);
        }
        if at(s, q, '(') {
            match parse_binary(s, q + 1, 4) {
                Some((r, v)) => {
                    let t = skip_ws(s, r);
                    if at(s, t, ')') {
                        Some((t + 1, v))
                    } else {
                        None
                    }
                },
                None => None,
            }
        } else {
            parse_value(s, q)
        }
    } else {
        None
    }
}

/// Why the input is not an expression.
#[derive(Debug, Clone, Copy, PartialEq, Eq, Structural)]
pub enum ParseError {
    /// No expression starts at the beginning of the input; the position is where it should
    /// start: the first character that is not whitespace, or the end of the input.
    InvalidExpression { position: usize },
    /// An expression was read, but more input follows it, from this character position on.
    TrailingInput { position: usize },
    /// The input is an expression, but one of its integer literals does not fit in an
    /// `i64`.
    IntegerOutOfRange,
}

/// `program`: the whole input is one expression, with whitespace around it allowed.
pub open spec fn spec_parse(s: Seq<char>) -> Result<SpecValue, ParseError> {
    match parse_binary(s, skip_ws(s, 0), 4) {
        Some((r, v)) => {
            let t = skip_ws(s, r);
            if t == s.len() {
                Ok(v)
            } else {
                Err(ParseError::TrailingInput { position: t as usize })
            }
        },
        None => Err(ParseError::InvalidExpression { position: skip_ws(s, 0) as usize }),
    }
}

} // verus!
