//! Properties that every parse result has.
use vstd::prelude::*;
use crate::grammar::{
    at, is_digit, is_ident_char, is_ident_start, is_ws, skip_ws, scan_ident, digits_value,
    lex_identifier, lex_digits, lex_integer, lex_signed_integer, float_end, lex_float,
    lex_signed_float, string_close, lex_string, parse_arg, parse_args_rest, parse_call_args,
    parse_index_value, parse_accessor_suffix, parse_accessor_rest, parse_accessor_chain,
    parse_function_call, parse_method_suffix, parse_method_rest, parse_method_call, parse_value,
    match_op, match_unary_op, parse_binary, parse_binary_rest, parse_unary, parse_primary,
    spec_parse, ParseError, lemma_skip_ws, lemma_scan_digits,
};
use crate::value::SpecValue;
use crate::unescape::spec_unescape;

verus! {

/// `t` is an identifier: an ASCII letter or `_`, then ASCII letters, digits or `_`.
pub open spec fn is_identifier_text(t: Seq<char>) -> bool {
    &&& t.len() > 0
    &&& is_ident_start(t[0])
    &&& forall|i: int| 1 <= i < t.len() ==> is_ident_char(#[trigger] t[i])
}

/// A literal that a call may take as an argument.
pub open spec fn is_literal(v: SpecValue) -> bool {
    v is Integer || v is Float || v is String
}

/// Every value of `args` is a literal.
pub open spec fn all_literals(args: Seq<SpecValue>) -> bool {
    forall|i: int| 0 <= i < args.len() ==> is_literal(#[trigger] args[i])
}

/// What may stand in the brackets or after the dot of an accessor.
pub open spec fn is_accessor_key(v: SpecValue) -> bool {
    match v {
        SpecValue::Identifier(t) => is_identifier_text(t),
        SpecValue::Integer(_) => true,
        SpecValue::String(_) => true,
        _ => false,
    }
}

/// An identifier followed by accessors.
pub open spec fn is_accessor_chain(v: SpecValue) -> bool
    decreases v,
{
    match v {
        SpecValue::Identifier(t) => is_identifier_text(t),
        SpecValue::Accessor(b, k) => is_accessor_chain(*b) && is_accessor_key(*k),
        _ => false,
    }
}

/// An accessor chain followed by one or more method calls with literal arguments.
pub open spec fn is_method_chain(v: SpecValue) -> bool
    decreases v,
{
    match v {
        SpecValue::MethodCall(r, m, args) => (is_accessor_chain(*r) || is_method_chain(*r))
            && is_identifier_text(m) && all_literals(args),
        _ => false,
    }
}

/// The shapes an expression can have: an integer or float operand is unsigned (a minus
/// sign in front of it is a negation), names are identifiers, accessor keys are
/// identifiers, integers or strings, and calls take literal arguments only.
pub open spec fn well_formed(v: SpecValue) -> bool
    decreases v,
{
    match v {
        SpecValue::Integer(n) => n >= 0,
        SpecValue::Float(t) => t.len() > 0 && is_digit(t[0]),
        SpecValue::String(_) => true,
        SpecValue::Identifier(_) => is_accessor_chain(v),
        SpecValue::Accessor(_, _) => is_accessor_chain(v),
        SpecValue::FunctionCall(name, args) => is_identifier_text(name) && all_literals(args),
        SpecValue::MethodCall(_, _, _) => is_method_chain(v),
        SpecValue::BinaryOp(_, a, b) => well_formed(*a) && well_formed(*b),
        SpecValue::UnaryOp(_, a) => well_formed(*a),
    }
}

pub proof fn lemma_digits_value_nonneg(ds: Seq<char>)
    requires
        forall|i: int| 0 <= i < ds.len() ==> is_digit(#[trigger] ds[i]),
    ensures
        digits_value(ds) >= 0,
    decreases ds.len(),
{
    if ds.len() > 0 {
        lemma_digits_value_nonneg(ds.drop_last());
    }
}

pub proof fn lemma_identifier(s: Seq<char>, p: int)
    requires
        0 <= p <= s.len(),
    ensures
        lex_identifier(s, p) matches Some((e, t)) ==> p < e <= s.len() && is_identifier_text(t),
{
    if 0 <= p < s.len() && is_ident_start(s[p]) {
        lemma_scan_ident_chars(s, p + 1);
        let e = scan_ident(s, p + 1);
        let t = s.subrange(p, e);
        assert forall|i: int| 1 <= i < t.len() implies is_ident_char(#[trigger] t[i]) by {
            assert(t[i] == s[p + i]);
        }
    }
}

pub proof fn lemma_scan_ident_chars(s: Seq<char>, p: int)
    requires
        0 <= p <= s.len(),
    ensures
        p <= scan_ident(s, p) <= s.len(),
        forall|i: int| p <= i < scan_ident(s, p) ==> is_ident_char(#[trigger] s[i]),
    decreases s.len() - p,
{
    if p < s.len() && is_ident_char(s[p]) {
        lemma_scan_ident_chars(s, p + 1);
    }
}

pub proof fn lemma_integer(s: Seq<char>, p: int)
    requires
        0 <= p <= s.len(),
    ensures
        lex_integer(s, p) matches Some((e, v)) ==> p < e <= s.len() && well_formed(v),
{
    if let Some(e) = lex_digits(s, p) {
        lemma_scan_digits(s, p + 1);
        let ds = s.subrange(p, e);
        assert forall|i: int| 0 <= i < ds.len() implies is_digit(#[trigger] ds[i]) by {
            assert(ds[i] == s[p + i]);
        }
        lemma_digits_value_nonneg(ds);
    }
}

pub proof fn lemma_signed_integer(s: Seq<char>, p: int)
    requires
        0 <= p <= s.len(),
    ensures
        lex_signed_integer(s, p) matches Some((e, v)) ==> p < e <= s.len() && v is Integer,
{
    if at(s, p, '-') {
        if let Some(e) = lex_digits(s, p + 1) {
            lemma_scan_digits(s, p + 2);
        }
    } else {
        lemma_integer(s, p);
    }
}

pub proof fn lemma_float_end(s: Seq<char>, p: int)
    requires
        0 <= p <= s.len(),
    ensures
        float_end(s, p) matches Some(e) ==> p < e <= s.len() && is_digit(s[p]),
{
    if let Some(e1) = lex_digits(s, p) {
        lemma_scan_digits(s, p + 1);
        if at(s, e1, '.') {
            if let Some(e2) = lex_digits(s, e1 + 1) {
                lemma_scan_digits(s, e1 + 2);
                let f = if at(s, e2 + 1, '+') || at(s, e2 + 1, '-') {
                    e2 + 2
                } else {
                    e2 + 1
                };
                if f <= s.len() {
                    lemma_scan_digits(s, f);
                }
                if f + 1 <= s.len() {
                    lemma_scan_digits(s, f + 1);
                }
            }
        }
    }
}

pub proof fn lemma_float(s: Seq<char>, p: int)
    requires
        0 <= p <= s.len(),
    ensures
        lex_float(s, p) matches Some((e, v)) ==> p < e <= s.len() && well_formed(v),
{
    lemma_float_end(s, p);
}

pub proof fn lemma_signed_float(s: Seq<char>, p: int)
    requires
        0 <= p <= s.len(),
    ensures
        lex_signed_float(s, p) matches Some((e, v)) ==> p < e <= s.len() && v is Float,
{
    if at(s, p, '-') {
        lemma_float_end(s, p + 1);
    } else {
        lemma_float_end(s, p);
    }
}

pub proof fn lemma_string_close(s: Seq<char>, p: int)
    requires
        0 <= p <= s.len(),
    ensures
        string_close(s, p) matches Some(c) ==> p <= c < s.len(),
    decreases s.len() - p,
{
    if 0 <= p < s.len() && s[p] != '"' {
        if s[p] == '\\' {
            if p + 1 < s.len() {
                lemma_string_close(s, p + 2);
            }
        } else {
            lemma_string_close(s, p + 1);
        }
    }
}

pub proof fn lemma_string(s: Seq<char>, p: int)
    requires
        0 <= p <= s.len(),
    ensures
        lex_string(s, p) matches Some((e, v)) ==> p < e <= s.len() && v is String,
{
    if at(s, p, '"') {
        lemma_string_close(s, p + 1);
    }
}

pub proof fn lemma_arg(s: Seq<char>, p: int)
    requires
        0 <= p <= s.len(),
    ensures
        parse_arg(s, p) matches Some((e, v)) ==> p < e <= s.len() && is_literal(v),
{
    let q = skip_ws(s, p);
    lemma_skip_ws(s, p);
    lemma_signed_float(s, q);
    lemma_signed_integer(s, q);
    lemma_string(s, q);
}

pub proof fn lemma_args_rest(s: Seq<char>, p: int, acc: Seq<SpecValue>)
    requires
        0 <= p <= s.len(),
        all_literals(acc),
    ensures
        p <= parse_args_rest(s, p, acc).0 <= s.len(),
        all_literals(parse_args_rest(s, p, acc).1),
    decreases s.len() - p,
{
    let q = skip_ws(s, p);
    lemma_skip_ws(s, p);
    if at(s, q, ',') {
        lemma_arg(s, q + 1);
        if let Some((r, a)) = parse_arg(s, q + 1) {
            if p < r <= s.len() {
                assert(all_literals(acc.push(a))) by {
                    assert forall|i: int| 0 <= i < acc.push(a).len() implies is_literal(
                        #[trigger] acc.push(a)[i],
                    ) by {
                        if i < acc.len() {
                            assert(acc.push(a)[i] == acc[i]);
                        }
                    }
                }
                lemma_args_rest(s, r, acc.push(a));
            }
        }
    }
}

pub proof fn lemma_call_args(s: Seq<char>, p: int)
    requires
        0 <= p <= s.len(),
    ensures
        parse_call_args(s, p) matches Some((e, args)) ==> p < e <= s.len() && all_literals(args),
{
    lemma_arg(s, p);
    let q = match parse_arg(s, p) {
        Some((r, a)) => if p < r <= s.len() {
            assert(all_literals(seq![a])) by {
                assert forall|i: int| 0 <= i < seq![a].len() implies is_literal(
                    #[trigger] seq![a][i],
                ) by {}
            }
            lemma_args_rest(s, r, seq![a]);
            parse_args_rest(s, r, seq![a]).0
        } else {
            p
        },
        None => p,
    };
    lemma_skip_ws(s, q);
}

pub proof fn lemma_accessor_suffix(s: Seq<char>, p: int)
    requires
        0 <= p <= s.len(),
    ensures
        parse_accessor_suffix(s, p) matches Some((e, k)) ==> p < e <= s.len() && is_accessor_key(
            k,
        ),
{
    let q = skip_ws(s, p);
    lemma_skip_ws(s, p);
    if at(s, q, '.') {
        lemma_skip_ws(s, q + 1);
        lemma_identifier(s, skip_ws(s, q + 1));
    } else if at(s, q, '[') {
        let q1 = skip_ws(s, q + 1);
        lemma_skip_ws(s, q + 1);
        lemma_signed_integer(s, q1);
        lemma_string(s, q1);
        if let Some((r, key)) = parse_index_value(s, q1) {
            lemma_skip_ws(s, r);
        }
    }
}

pub proof fn lemma_accessor_rest(s: Seq<char>, p: int, base: SpecValue)
    requires
        0 <= p <= s.len(),
        is_accessor_chain(base),
    ensures
        p <= parse_accessor_rest(s, p, base).0 <= s.len(),
        is_accessor_chain(parse_accessor_rest(s, p, base).1),
    decreases s.len() - p,
{
    lemma_accessor_suffix(s, p);
    if let Some((r, key)) = parse_accessor_suffix(s, p) {
        if p < r <= s.len() {
            lemma_accessor_rest(s, r, SpecValue::Accessor(Box::new(base), Box::new(key)));
        }
    }
}

pub proof fn lemma_accessor_chain(s: Seq<char>, p: int)
    requires
        0 <= p <= s.len(),
    ensures
        parse_accessor_chain(s, p) matches Some((e, v)) ==> p < e <= s.len() && is_accessor_chain(
            v,
        ),
{
    lemma_identifier(s, p);
    if let Some((q, name)) = lex_identifier(s, p) {
        lemma_accessor_rest(s, q, SpecValue::Identifier(name));
    }
}

pub proof fn lemma_function_call(s: Seq<char>, p: int)
    requires
        0 <= p <= s.len(),
    ensures
        parse_function_call(s, p) matches Some((e, v)) ==> p < e <= s.len() && well_formed(v),
{
    lemma_identifier(s, p);
    if let Some((q, name)) = lex_identifier(s, p) {
        lemma_skip_ws(s, q);
        let t = skip_ws(s, q);
        if at(s, t, '(') {
            lemma_call_args(s, t + 1);
        }
    }
}

pub proof fn lemma_method_suffix(s: Seq<char>, p: int)
    requires
        0 <= p <= s.len(),
    ensures
        parse_method_suffix(s, p) matches Some((e, m, args)) ==> p < e <= s.len()
            && is_identifier_text(m) && all_literals(args),
{
    let q = skip_ws(s, p);
    lemma_skip_ws(s, p);
    if at(s, q, ':') {
        lemma_skip_ws(s, q + 1);
        lemma_identifier(s, skip_ws(s, q + 1));
        if let Some((r, name)) = lex_identifier(s, skip_ws(s, q + 1)) {
            lemma_skip_ws(s, r);
            let t = skip_ws(s, r);
            if at(s, t, '(') {
                lemma_call_args(s, t + 1);
            }
        }
    }
}

pub proof fn lemma_method_rest(s: Seq<char>, p: int, recv: SpecValue)
    requires
        0 <= p <= s.len(),
        is_method_chain(recv),
    ensures
        p <= parse_method_rest(s, p, recv).0 <= s.len(),
        is_method_chain(parse_method_rest(s, p, recv).1),
    decreases s.len() - p,
{
    lemma_method_suffix(s, p);
    if let Some((r, name, args)) = parse_method_suffix(s, p) {
        if p < r <= s.len() {
            lemma_method_rest(s, r, SpecValue::MethodCall(Box::new(recv), name, args));
        }
    }
}

pub proof fn lemma_method_call(s: Seq<char>, p: int)
    requires
        0 <= p <= s.len(),
    ensures
        parse_method_call(s, p) matches Some((e, v)) ==> p < e <= s.len() && well_formed(v),
{
    lemma_accessor_chain(s, p);
    if let Some((q, base)) = parse_accessor_chain(s, p) {
        lemma_method_suffix(s, q);
        if let Some((r, name, args)) = parse_method_suffix(s, q) {
            if q < r <= s.len() {
                lemma_method_rest(s, r, SpecValue::MethodCall(Box::new(base), name, args));
            }
        }
    }
}

pub proof fn lemma_value(s: Seq<char>, p: int)
    requires
        0 <= p <= s.len(),
    ensures
        parse_value(s, p) matches Some((e, v)) ==> p < e <= s.len() && well_formed(v),
{
    let q = skip_ws(s, p);
    lemma_skip_ws(s, p);
    lemma_method_call(s, q);
    lemma_function_call(s, q);
    lemma_accessor_chain(s, q);
    lemma_float(s, q);
    lemma_integer(s, q);
    lemma_string(s, q);
}

pub proof fn lemma_binary(s: Seq<char>, p: int, level: nat)
    requires
        0 <= p <= s.len(),
    ensures
        parse_binary(s, p, level) matches Some((e, v)) ==> p < e <= s.len() && well_formed(v),
    decreases s.len() - p, 2 * level + 3,
{
    let first = if level == 0 {
        lemma_unary(s, p);
        parse_unary(s, p)
    } else {
        lemma_binary(s, p, (level - 1) as nat);
        parse_binary(s, p, (level - 1) as nat)
    };
    if let Some((q, left)) = first {
        if p <= q <= s.len() {
            lemma_binary_rest(s, q, level, left);
        }
    }
}

pub proof fn lemma_binary_rest(s: Seq<char>, p: int, level: nat, left: SpecValue)
    requires
        0 <= p <= s.len(),
        well_formed(left),
    ensures
        p <= parse_binary_rest(s, p, level, left).0 <= s.len(),
        well_formed(parse_binary_rest(s, p, level, left).1),
    decreases s.len() - p, 2 * level + 2,
{
    let q = skip_ws(s, p);
    lemma_skip_ws(s, p);
    if let Some((r, op)) = match_op(s, q, level) {
        let operand = if level == 0 {
            lemma_unary(s, r);
            parse_unary(s, r)
        } else {
            lemma_binary(s, r, (level - 1) as nat);
            parse_binary(s, r, (level - 1) as nat)
        };
        if let Some((t, right)) = operand {
            if r <= t <= s.len() {
                lemma_binary_rest(
                    s,
                    t,
                    level,
                    SpecValue::BinaryOp(op, Box::new(left), Box::new(right)),
                );
            }
        }
    }
}

pub proof fn lemma_unary(s: Seq<char>, p: int)
    requires
        0 <= p <= s.len(),
    ensures
        parse_unary(s, p) matches Some((e, v)) ==> p < e <= s.len() && well_formed(v),
    decreases s.len() - p, 1int,
{
    let q = skip_ws(s, p);
    lemma_skip_ws(s, p);
    lemma_primary(s, q);
    if let Some(op) = match_unary_op(s, q) {
        lemma_unary(s, q + 1);
    }
}

pub proof fn lemma_primary(s: Seq<char>, p: int)
    requires
        0 <= p <= s.len(),
    ensures
        parse_primary(s, p) matches Some((e, v)) ==> p < e <= s.len() && well_formed(v),
    decreases s.len() - p, 0int,
{
    let q = skip_ws(s, p);
    lemma_skip_ws(s, p);
    if at(s, q, '(') {
        lemma_binary(s, q + 1, 4);
        if let Some((r, v)) = parse_binary(s, q + 1, 4) {
            lemma_skip_ws(s, r);
        }
    } else {
        lemma_value(s, q);
    }
}

/// Every expression that `parse` accepts has the shapes `well_formed` describes: call
/// arguments are literals ("function and method arguments accept only literals"), a
/// method is called on an accessor chain or on another method call, accessor keys are
/// identifiers, integers or strings, and a minus sign before a number in an expression is
/// a negation of an unsigned literal.
pub proof fn law_parse_well_formed(s: Seq<char>)
    ensures
        spec_parse(s) matches Ok(v) ==> well_formed(v),
{
    lemma_skip_ws(s, 0);
    lemma_binary(s, skip_ws(s, 0), 4);
}

/// Where an expression is followed by more input, the error points at the first
/// character after the expression that is not whitespace.
pub proof fn law_trailing_input_position(s: Seq<char>)
    requires
        s.len() <= usize::MAX,
    ensures
        spec_parse(s) matches Err(ParseError::TrailingInput { position }) ==> {
            &&& position < s.len()
            &&& !is_ws(s[position as int])
            &&& parse_binary(s, skip_ws(s, 0), 4) matches Some((r, _)) && r <= position && (forall|
                i: int,
            | r <= i < position ==> is_ws(#[trigger] s[i]))
        },
{
    lemma_skip_ws(s, 0);
    lemma_binary(s, skip_ws(s, 0), 4);
    if let Some((r, v)) = parse_binary(s, skip_ws(s, 0), 4) {
        lemma_skip_ws(s, r);
    }
}

/// A backslash inside a string literal escapes the character after it, whatever that
/// character is: the literal goes on after both.
pub proof fn law_string_escape_step(s: Seq<char>, p: int)
    requires
        0 <= p,
        p + 1 < s.len(),
        s[p] == '\\',
    ensures
        string_close(s, p) == string_close(s, p + 2),
{
}

/// `b` can be the body of a string literal: each backslash takes the character after it,
/// and no other character is a quote.
pub open spec fn string_body(b: Seq<char>) -> bool
    decreases b.len(),
{
    if b.len() == 0 {
        true
    } else if b[0] == '\\' {
        if b.len() >= 2 {
            string_body(b.skip(2))
        } else {
            false
        }
    } else {
        b[0] != '"' && string_body(b.skip(1))
    }
}

/// The quote that closes a literal whose body is `b` is the one right after `b`.
proof fn lemma_string_body_close(b: Seq<char>, k: int)
    requires
        0 <= k <= b.len(),
        string_body(b.skip(k)),
    ensures
        string_close(seq!['"'] + b + seq!['"'], 1 + k) == Some(1 + b.len() as int),
    decreases b.len() - k,
{
    let s = seq!['"'] + b + seq!['"'];
    assert(s.len() == b.len() + 2);
    assert forall|i: int| 0 <= i < b.len() implies #[trigger] s[1 + i] == b[i] by {}
    assert(s[1 + b.len() as int] == '"');
    if k < b.len() {
        let t = b.skip(k);
        assert(t[0] == b[k]);
        if b[k] == '\\' {
            assert(t.skip(2) =~= b.skip(k + 2));
            lemma_string_body_close(b, k + 2);
        } else {
            assert(t.skip(1) =~= b.skip(k + 1));
            lemma_string_body_close(b, k + 1);
        }
    }
}

/// A quoted string body parses as that string, with its escapes resolved: for every body
/// `b` in which each backslash takes the next character and no other character is a
/// quote, the text `"` + `b` + `"` is the string `spec_unescape(b)`.
pub proof fn law_string_literal(b: Seq<char>)
    requires
        string_body(b),
    ensures
        spec_parse(seq!['"'] + b + seq!['"']) == Ok::<SpecValue, ParseError>(
            SpecValue::String(spec_unescape(b)),
        ),
{
    let s = seq!['"'] + b + seq!['"'];
    let n = s.len() as int;
    assert(b.skip(0) =~= b);
    lemma_string_body_close(b, 0);
    assert(s[0] == '"');
    assert(s.subrange(1, 1 + b.len() as int) =~= b);
    let v = SpecValue::String(spec_unescape(b));
    assert(lex_string(s, 0) == Some((n, v)));
    assert(skip_ws(s, 0) == 0);
    assert(lex_identifier(s, 0) is None);
    assert(parse_accessor_chain(s, 0) is None);
    assert(parse_method_call(s, 0) is None);
    assert(parse_function_call(s, 0) is None);
    assert(lex_digits(s, 0) is None);
    assert(float_end(s, 0) is None);
    assert(parse_value(s, 0) == Some((n, v)));
    assert(match_unary_op(s, 0) is None);
    assert(parse_primary(s, 0) == Some((n, v)));
    assert(parse_unary(s, 0) == Some((n, v)));
    crate::chains::lemma_whole_from_unary(s, 0, 4, n, v);
}

} // verus!
