//! What single tokens parse to: decimal integers, floats, names, and any expression with
//! whitespace before it.
use vstd::prelude::*;
use crate::grammar::{
    at, is_ident_char, skip_ws, scan_digits, scan_ident, digits_value, lex_identifier, lex_digits,
    lex_integer, exponent_end, float_end, lex_float, parse_accessor_suffix, parse_accessor_rest,
    parse_accessor_chain, parse_function_call, parse_method_suffix, parse_method_call, parse_value,
    match_unary_op, parse_primary, parse_unary, parse_binary, spec_parse, ParseError,
    lemma_skip_ws,
};
use crate::chains::lemma_whole_from_unary;
use crate::prefix::{lemma_pre_skip_ws, lemma_pre_binary};
use crate::value::SpecValue;

verus! {

/// `c` is one of the ten decimal digits.
pub open spec fn decimal(c: char) -> bool {
    c == '0' || c == '1' || c == '2' || c == '3' || c == '4' || c == '5' || c == '6' || c == '7'
        || c == '8' || c == '9'
}

/// `d` is one or more decimal digits.
pub open spec fn decimal_text(d: Seq<char>) -> bool {
    d.len() > 0 && forall|i: int| 0 <= i < d.len() ==> decimal(#[trigger] d[i])
}

/// `t` is a name: an ASCII letter or `_`, then ASCII letters, digits or `_`.
pub open spec fn name_text(t: Seq<char>) -> bool {
    &&& t.len() > 0
    &&& ('a' <= t[0] <= 'z' || 'A' <= t[0] <= 'Z' || t[0] == '_')
    &&& forall|i: int|
        1 <= i < t.len() ==> ('a' <= #[trigger] t[i] <= 'z' || 'A' <= t[i] <= 'Z' || t[i] == '_'
            || decimal(t[i]))
}

/// Digits from `k` up to `e`, and none at `e`: the digit scan from `k` ends at `e`.
proof fn lemma_scan_digits_to(s: Seq<char>, k: int, e: int)
    requires
        0 <= k <= e <= s.len(),
        forall|i: int| k <= i < e ==> decimal(#[trigger] s[i]),
        e < s.len() ==> !decimal(s[e]),
    ensures
        scan_digits(s, k) == e,
    decreases e - k,
{
    if k < e {
        lemma_scan_digits_to(s, k + 1, e);
    }
}

/// Name characters from `k` to the end: the name scan from `k` reads to the end.
proof fn lemma_scan_ident_to_end(s: Seq<char>, k: int)
    requires
        1 <= k <= s.len(),
        name_text(s),
    ensures
        scan_ident(s, k) == s.len(),
    decreases s.len() - k,
{
    if k < s.len() {
        assert(is_ident_char(s[k]));
        lemma_scan_ident_to_end(s, k + 1);
    }
}

/// A text of decimal digits parses as the integer it writes.
proof fn lemma_decimal_parse(d: Seq<char>)
    requires
        decimal_text(d),
    ensures
        spec_parse(d) == Ok::<SpecValue, ParseError>(SpecValue::Integer(digits_value(d))),
{
    let n = d.len() as int;
    lemma_scan_digits_to(d, 1, n);
    assert(d.subrange(0, n) =~= d);
    let v = SpecValue::Integer(digits_value(d));
    assert(lex_digits(d, 0) == Some(n));
    assert(float_end(d, 0) is None);
    assert(lex_integer(d, 0) == Some((n, v)));
    assert(skip_ws(d, 0) == 0);
    assert(lex_identifier(d, 0) is None);
    assert(parse_accessor_chain(d, 0) is None);
    assert(parse_method_call(d, 0) is None);
    assert(parse_function_call(d, 0) is None);
    assert(parse_value(d, 0) == Some((n, v)));
    assert(match_unary_op(d, 0) is None);
    assert(parse_primary(d, 0) == Some((n, v)));
    assert(parse_unary(d, 0) == Some((n, v)));
    lemma_whole_from_unary(d, 0, 4, n, v);
}

/// Integer literals are decimal: one digit `c` is the number `c - '0'`, and a digit `c`
/// written after the digits `d` of the number `n` makes the number `10 * n + (c - '0')`.
pub proof fn law_decimal_integer(d: Seq<char>, c: char)
    requires
        decimal_text(d),
        decimal(c),
    ensures
        spec_parse(seq![c]) == Ok::<SpecValue, ParseError>(
            SpecValue::Integer(c as int - '0' as int),
        ),
        spec_parse(d) matches Ok(SpecValue::Integer(n)) && spec_parse(d.push(c)) == Ok::<
            SpecValue,
            ParseError,
        >(SpecValue::Integer(10 * n + (c as int - '0' as int))),
{
    let one = seq![c];
    assert(decimal_text(one));
    lemma_decimal_parse(one);
    assert(one.drop_last() =~= Seq::<char>::empty());
    assert(digits_value(one.drop_last()) == 0);
    assert(one.last() == c);
    assert(digits_value(one) == c as int - '0' as int);
    lemma_decimal_parse(d);
    let dc = d.push(c);
    assert(decimal_text(dc)) by {
        assert forall|i: int| 0 <= i < dc.len() implies decimal(#[trigger] dc[i]) by {
            if i < d.len() {
                assert(dc[i] == d[i]);
            }
        }
    }
    lemma_decimal_parse(dc);
    assert(dc.drop_last() =~= d);
}

/// A float written as digits, a point and digits parses as a float that keeps its text.
pub proof fn law_float_literal(d1: Seq<char>, d2: Seq<char>)
    requires
        decimal_text(d1),
        decimal_text(d2),
    ensures
        spec_parse(d1 + seq!['.'] + d2) == Ok::<SpecValue, ParseError>(
            SpecValue::Float(d1 + seq!['.'] + d2),
        ),
{
    let t = d1 + seq!['.'] + d2;
    let n = t.len() as int;
    let m = d1.len() as int;
    assert forall|i: int| 0 <= i < m implies decimal(#[trigger] t[i]) by {
        assert(t[i] == d1[i]);
    }
    assert forall|i: int| m + 1 <= i < n implies decimal(#[trigger] t[i]) by {
        assert(t[i] == d2[i - m - 1]);
    }
    assert(t[m] == '.');
    lemma_scan_digits_to(t, 1, m);
    lemma_scan_digits_to(t, m + 2, n);
    assert(decimal(t[0]));
    assert(decimal(t[m + 1]));
    assert(lex_digits(t, 0) == Some(m));
    assert(lex_digits(t, m + 1) == Some(n));
    assert(exponent_end(t, n) == n);
    assert(float_end(t, 0) == Some(n));
    assert(t.subrange(0, n) =~= t);
    let v = SpecValue::Float(t);
    assert(lex_float(t, 0) == Some((n, v)));
    assert(skip_ws(t, 0) == 0);
    assert(lex_identifier(t, 0) is None);
    assert(parse_accessor_chain(t, 0) is None);
    assert(parse_method_call(t, 0) is None);
    assert(parse_function_call(t, 0) is None);
    assert(parse_value(t, 0) == Some((n, v)));
    assert(match_unary_op(t, 0) is None);
    assert(parse_primary(t, 0) == Some((n, v)));
    assert(parse_unary(t, 0) == Some((n, v)));
    lemma_whole_from_unary(t, 0, 4, n, v);
}

/// A name on its own parses as the identifier of that name.
pub proof fn law_name(t: Seq<char>)
    requires
        name_text(t),
    ensures
        spec_parse(t) == Ok::<SpecValue, ParseError>(SpecValue::Identifier(t)),
{
    let n = t.len() as int;
    lemma_scan_ident_to_end(t, 1);
    assert(t.subrange(0, n) =~= t);
    let v = SpecValue::Identifier(t);
    assert(lex_identifier(t, 0) == Some((n, t)));
    assert(skip_ws(t, n) == n);
    assert(parse_accessor_suffix(t, n) is None);
    assert(parse_accessor_rest(t, n, v) == (n, v));
    assert(parse_accessor_chain(t, 0) == Some((n, v)));
    assert(parse_method_suffix(t, n) is None);
    assert(parse_method_call(t, 0) is None);
    assert(parse_function_call(t, 0) is None);
    assert(skip_ws(t, 0) == 0);
    assert(parse_value(t, 0) == Some((n, v)));
    assert(match_unary_op(t, 0) is None);
    assert(parse_primary(t, 0) == Some((n, v)));
    assert(parse_unary(t, 0) == Some((n, v)));
    lemma_whole_from_unary(t, 0, 4, n, v);
}

/// `u` is made of spaces, tabs, newlines and carriage returns.
pub open spec fn blank_text(u: Seq<char>) -> bool {
    forall|i: int|
        0 <= i < u.len() ==> (#[trigger] u[i] == ' ' || u[i] == '\t' || u[i] == '\n' || u[i]
            == '\r')
}

/// Blanks from `k` to the end of `u` are skipped up to the start of `t`.
proof fn lemma_blank_skip(u: Seq<char>, t: Seq<char>, k: int)
    requires
        blank_text(u),
        0 <= k <= u.len(),
    ensures
        skip_ws(u + t, k) == skip_ws(u + t, u.len() as int),
    decreases u.len() - k,
{
    if k < u.len() {
        assert((u + t)[k] == u[k]);
        lemma_blank_skip(u, t, k + 1);
    }
}

/// Spaces, tabs, newlines and carriage returns before an expression change nothing of its
/// value.
pub proof fn law_leading_blanks(u: Seq<char>, t: Seq<char>)
    requires
        blank_text(u),
    ensures
        spec_parse(t) matches Ok(v) ==> spec_parse(u + t) == Ok::<SpecValue, ParseError>(v),
{
    if let Ok(v) = spec_parse(t) {
        let s = u + t;
        let q = skip_ws(t, 0);
        lemma_skip_ws(t, 0);
        lemma_blank_skip(u, t, 0);
        lemma_pre_skip_ws(u, t, 0);
        lemma_pre_binary(u, t, q, 4);
        crate::laws::lemma_binary(t, q, 4);
        let r = parse_binary(t, q, 4)->Some_0.0;
        lemma_pre_skip_ws(u, t, r);
    }
}

} // verus!
