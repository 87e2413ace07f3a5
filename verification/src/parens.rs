//! Parentheses around a whole expression give back the expression's own value.
//!
//! The proof compares each rule on `t` at position `k` with the same rule on
//! `wrap(t) = "(" + t + ")"` at `k + 1`. The two agree, shifted by one, except where the
//! rule on `wrap(t)` reads the closing parenthesis, which `t` does not have; then the
//! rule on `t` either fails or stops before a character that no enclosing rule can take.
use vstd::prelude::*;
use crate::grammar::{
    at, is_ws, skip_ws, scan_digits, scan_ident, lex_identifier, lex_digits, lex_integer,
    lex_signed_integer, exponent_end, float_end, lex_float, lex_signed_float, string_close,
    lex_string, parse_arg, parse_args_rest, parse_call_args, parse_index_value,
    parse_accessor_suffix, parse_accessor_rest, parse_accessor_chain, parse_function_call,
    parse_method_suffix, parse_method_rest, parse_method_call, parse_value, match_op,
    match_unary_op, parse_binary, parse_binary_rest, parse_unary, parse_primary, spec_parse,
    lemma_skip_ws,
};
use crate::laws::{
    lemma_identifier, lemma_arg, lemma_args_rest, lemma_accessor_suffix, lemma_accessor_chain,
    lemma_method_suffix, lemma_method_rest, lemma_binary, lemma_unary,
};
use crate::value::SpecValue;
use crate::precedence::operand_parses;

verus! {

/// `t` between parentheses.
pub open spec fn wrap(t: Seq<char>) -> Seq<char> {
    seq!['('] + t + seq![')']
}

/// A result of a rule on `t`, moved one position to the right.
pub open spec fn shifted<A>(r: Option<(int, A)>) -> Option<(int, A)> {
    match r {
        Some((e, a)) => Some((e + 1, a)),
        None => None,
    }
}

pub open spec fn shifted_pos(r: Option<int>) -> Option<int> {
    match r {
        Some(e) => Some(e + 1),
        None => None,
    }
}

pub proof fn lemma_wrap(t: Seq<char>)
    ensures
        wrap(t).len() == t.len() + 2,
        wrap(t)[0] == '(',
        wrap(t)[t.len() + 1int] == ')',
        forall|i: int| 0 <= i < t.len() ==> wrap(t)[i + 1] == #[trigger] t[i],
{
    let s = wrap(t);
    assert forall|i: int| 0 <= i < t.len() implies s[i + 1] == #[trigger] t[i] by {
        assert((seq!['('] + t)[i + 1] == t[i]);
    }
}

pub proof fn lemma_wrap_skip_ws(t: Seq<char>, k: int)
    requires
        0 <= k <= t.len(),
    ensures
        skip_ws(wrap(t), k + 1) == skip_ws(t, k) + 1,
    decreases t.len() - k,
{
    lemma_wrap(t);
    if k < t.len() && is_ws(t[k]) {
        lemma_wrap_skip_ws(t, k + 1);
    }
}

pub proof fn lemma_wrap_scan_digits(t: Seq<char>, k: int)
    requires
        0 <= k <= t.len(),
    ensures
        scan_digits(wrap(t), k + 1) == scan_digits(t, k) + 1,
    decreases t.len() - k,
{
    lemma_wrap(t);
    if k < t.len() && crate::grammar::is_digit(t[k]) {
        lemma_wrap_scan_digits(t, k + 1);
    }
}

pub proof fn lemma_wrap_scan_ident(t: Seq<char>, k: int)
    requires
        0 <= k <= t.len(),
    ensures
        scan_ident(wrap(t), k + 1) == scan_ident(t, k) + 1,
    decreases t.len() - k,
{
    lemma_wrap(t);
    if k < t.len() && crate::grammar::is_ident_char(t[k]) {
        lemma_wrap_scan_ident(t, k + 1);
    }
}

pub proof fn lemma_wrap_string_close(t: Seq<char>, k: int)
    requires
        0 <= k <= t.len(),
    ensures
        string_close(wrap(t), k + 1) == shifted_pos(string_close(t, k)),
    decreases t.len() - k,
{
    lemma_wrap(t);
    if k < t.len() && t[k] != '"' {
        if t[k] == '\\' {
            if k + 1 < t.len() {
                lemma_wrap_string_close(t, k + 2);
            } else {
                assert(string_close(wrap(t), k + 3) is None);
            }
        } else {
            lemma_wrap_string_close(t, k + 1);
        }
    } else if k == t.len() {
        assert(string_close(wrap(t), k + 2) is None);
    }
}

pub proof fn lemma_wrap_identifier(t: Seq<char>, k: int)
    requires
        0 <= k <= t.len(),
    ensures
        lex_identifier(wrap(t), k + 1) == shifted(lex_identifier(t, k)),
{
    lemma_wrap(t);
    if k < t.len() && crate::grammar::is_ident_start(t[k]) {
        lemma_wrap_scan_ident(t, k + 1);
        crate::grammar::lemma_scan_ident(t, k + 1);
        let e = scan_ident(t, k + 1);
        assert(wrap(t).subrange(k + 1, e + 1) =~= t.subrange(k, e));
    }
}

pub proof fn lemma_wrap_digits(t: Seq<char>, k: int)
    requires
        0 <= k <= t.len(),
    ensures
        lex_digits(wrap(t), k + 1) == shifted_pos(lex_digits(t, k)),
        lex_digits(t, k) matches Some(e) ==> k < e <= t.len(),
{
    lemma_wrap(t);
    if k < t.len() && crate::grammar::is_digit(t[k]) {
        lemma_wrap_scan_digits(t, k + 1);
        crate::grammar::lemma_scan_digits(t, k + 1);
    }
}

pub proof fn lemma_wrap_integer(t: Seq<char>, k: int)
    requires
        0 <= k <= t.len(),
    ensures
        lex_integer(wrap(t), k + 1) == shifted(lex_integer(t, k)),
{
    lemma_wrap_digits(t, k);
    if let Some(e) = lex_digits(t, k) {
        assert(wrap(t).subrange(k + 1, e + 1) =~= t.subrange(k, e)) by {
            lemma_wrap(t);
        }
    }
}

pub proof fn lemma_wrap_signed_integer(t: Seq<char>, k: int)
    requires
        0 <= k <= t.len(),
    ensures
        lex_signed_integer(wrap(t), k + 1) == shifted(lex_signed_integer(t, k)),
{
    lemma_wrap(t);
    if at(t, k, '-') {
        lemma_wrap_digits(t, k + 1);
        if let Some(e) = lex_digits(t, k + 1) {
            assert(wrap(t).subrange(k + 2, e + 1) =~= t.subrange(k + 1, e));
        }
    } else {
        lemma_wrap_integer(t, k);
    }
}

pub proof fn lemma_wrap_exponent_end(t: Seq<char>, k: int)
    requires
        0 <= k <= t.len(),
    ensures
        exponent_end(wrap(t), k + 1) == exponent_end(t, k) + 1,
        k <= exponent_end(t, k) <= t.len(),
{
    lemma_wrap(t);
    if at(t, k, 'e') || at(t, k, 'E') {
        let f = if at(t, k + 1, '+') || at(t, k + 1, '-') {
            k + 2
        } else {
            k + 1
        };
        lemma_wrap_digits(t, f);
    }
}

pub proof fn lemma_wrap_float_end(t: Seq<char>, k: int)
    requires
        0 <= k <= t.len(),
    ensures
        float_end(wrap(t), k + 1) == shifted_pos(float_end(t, k)),
        float_end(t, k) matches Some(e) ==> k < e <= t.len(),
{
    lemma_wrap(t);
    lemma_wrap_digits(t, k);
    if let Some(e1) = lex_digits(t, k) {
        if at(t, e1, '.') {
            lemma_wrap_digits(t, e1 + 1);
            if let Some(e2) = lex_digits(t, e1 + 1) {
                lemma_wrap_exponent_end(t, e2);
            }
        }
    }
}

pub proof fn lemma_wrap_float(t: Seq<char>, k: int)
    requires
        0 <= k <= t.len(),
    ensures
        lex_float(wrap(t), k + 1) == shifted(lex_float(t, k)),
{
    lemma_wrap_float_end(t, k);
    if let Some(e) = float_end(t, k) {
        assert(wrap(t).subrange(k + 1, e + 1) =~= t.subrange(k, e)) by {
            lemma_wrap(t);
        }
    }
}

pub proof fn lemma_wrap_signed_float(t: Seq<char>, k: int)
    requires
        0 <= k <= t.len(),
    ensures
        lex_signed_float(wrap(t), k + 1) == shifted(lex_signed_float(t, k)),
{
    lemma_wrap(t);
    let q = if at(t, k, '-') {
        k + 1
    } else {
        k
    };
    lemma_wrap_float_end(t, q);
    if let Some(e) = float_end(t, q) {
        assert(wrap(t).subrange(k + 1, e + 1) =~= t.subrange(k, e));
    }
}

pub proof fn lemma_wrap_string(t: Seq<char>, k: int)
    requires
        0 <= k <= t.len(),
    ensures
        lex_string(wrap(t), k + 1) == shifted(lex_string(t, k)),
{
    lemma_wrap(t);
    if at(t, k, '"') {
        lemma_wrap_string_close(t, k + 1);
        crate::laws::lemma_string_close(t, k + 1);
        if let Some(c) = string_close(t, k + 1) {
            assert(wrap(t).subrange(k + 2, c + 1) =~= t.subrange(k + 1, c));
        }
    }
}

pub proof fn lemma_wrap_match_op(t: Seq<char>, q: int, level: nat)
    requires
        0 <= q <= t.len(),
    ensures
        match_op(wrap(t), q + 1, level) == shifted(match_op(t, q, level)),
{
    lemma_wrap(t);
}

pub proof fn lemma_wrap_match_unary_op(t: Seq<char>, q: int)
    requires
        0 <= q <= t.len(),
    ensures
        match_unary_op(wrap(t), q + 1) == match_unary_op(t, q),
{
    lemma_wrap(t);
}

/// After position `e` of `t` stands, past whitespace, a character that is not `)` and
/// starts no binary operator of a level above `level`.
pub open spec fn blocked(t: Seq<char>, e: int, level: int) -> bool {
    let q = skip_ws(t, e);
    &&& q < t.len()
    &&& t[q] != ')'
    &&& forall|l: nat| level < l <= 4 ==> #[trigger] match_op(t, q, l) is None
}

/// A rule's answer on `wrap(t)` (`rs`) and on `t` (`rt`): the same, shifted; or `rs` ends
/// just after the closing parenthesis while `rt` fails or stops where `blocked` says.
pub open spec fn related(
    t: Seq<char>,
    rs: Option<(int, SpecValue)>,
    rt: Option<(int, SpecValue)>,
    level: int,
) -> bool {
    ||| rs == shifted(rt)
    ||| rs matches Some((e, _)) && e == t.len() + 2 && (rt matches Some((f, _)) ==> blocked(
        t,
        f,
        level,
    ))
}

/// The same as `related`, for the repetitions, which always answer.
pub open spec fn related_rest(
    t: Seq<char>,
    rs: (int, SpecValue),
    rt: (int, SpecValue),
    level: int,
) -> bool {
    ||| rs == (rt.0 + 1, rt.1)
    ||| rs.0 == t.len() + 2 && blocked(t, rt.0, level)
}

pub proof fn lemma_wrap_arg(t: Seq<char>, k: int)
    requires
        0 <= k <= t.len(),
    ensures
        parse_arg(wrap(t), k + 1) == shifted(parse_arg(t, k)),
{
    let q = skip_ws(t, k);
    lemma_skip_ws(t, k);
    lemma_wrap_skip_ws(t, k);
    lemma_wrap_signed_float(t, q);
    lemma_wrap_signed_integer(t, q);
    lemma_wrap_string(t, q);
}

pub proof fn lemma_wrap_args_rest(t: Seq<char>, k: int, acc: Seq<SpecValue>)
    requires
        0 <= k <= t.len(),
    ensures
        parse_args_rest(wrap(t), k + 1, acc) == (
            parse_args_rest(t, k, acc).0 + 1,
            parse_args_rest(t, k, acc).1,
        ),
    decreases t.len() - k,
{
    let q = skip_ws(t, k);
    lemma_skip_ws(t, k);
    lemma_wrap_skip_ws(t, k);
    lemma_wrap(t);
    if at(t, q, ',') {
        lemma_wrap_arg(t, q + 1);
        lemma_arg(t, q + 1);
        if let Some((r, a)) = parse_arg(t, q + 1) {
            lemma_wrap_args_rest(t, r, acc.push(a));
        }
    }
}

pub proof fn lemma_wrap_call_args(t: Seq<char>, k: int)
    requires
        0 <= k <= t.len(),
    ensures
        ({
            let rs = parse_call_args(wrap(t), k + 1);
            let rt = parse_call_args(t, k);
            ||| rs == shifted(rt)
            ||| rs is Some && rs->Some_0.0 == t.len() + 2 && rt is None
        }),
{
    lemma_wrap(t);
    lemma_wrap_arg(t, k);
    lemma_arg(t, k);
    let q = match parse_arg(t, k) {
        Some((r, a)) => {
            lemma_wrap_args_rest(t, r, seq![a]);
            lemma_args_rest(t, r, seq![a]);
            parse_args_rest(t, r, seq![a]).0
        },
        None => k,
    };
    lemma_skip_ws(t, q);
    lemma_wrap_skip_ws(t, q);
}

pub proof fn lemma_wrap_index_value(t: Seq<char>, k: int)
    requires
        0 <= k <= t.len(),
    ensures
        parse_index_value(wrap(t), k + 1) == shifted(parse_index_value(t, k)),
{
    lemma_wrap_signed_integer(t, k);
    lemma_wrap_string(t, k);
}

pub proof fn lemma_wrap_accessor_suffix(t: Seq<char>, k: int)
    requires
        0 <= k <= t.len(),
    ensures
        parse_accessor_suffix(wrap(t), k + 1) == shifted(parse_accessor_suffix(t, k)),
{
    let q = skip_ws(t, k);
    lemma_wrap(t);
    lemma_skip_ws(t, k);
    lemma_wrap_skip_ws(t, k);
    if at(t, q, '.') {
        lemma_skip_ws(t, q + 1);
        lemma_wrap_skip_ws(t, q + 1);
        lemma_wrap_identifier(t, skip_ws(t, q + 1));
    } else if at(t, q, '[') {
        let q1 = skip_ws(t, q + 1);
        lemma_skip_ws(t, q + 1);
        lemma_wrap_skip_ws(t, q + 1);
        lemma_wrap_index_value(t, q1);
        crate::laws::lemma_signed_integer(t, q1);
        crate::laws::lemma_string(t, q1);
        if let Some((r, key)) = parse_index_value(t, q1) {
            lemma_skip_ws(t, r);
            lemma_wrap_skip_ws(t, r);
        }
    }
}

pub proof fn lemma_wrap_accessor_rest(t: Seq<char>, k: int, base: SpecValue)
    requires
        0 <= k <= t.len(),
    ensures
        parse_accessor_rest(wrap(t), k + 1, base) == (
            parse_accessor_rest(t, k, base).0 + 1,
            parse_accessor_rest(t, k, base).1,
        ),
    decreases t.len() - k,
{
    lemma_wrap(t);
    lemma_wrap_accessor_suffix(t, k);
    lemma_accessor_suffix(t, k);
    if let Some((r, key)) = parse_accessor_suffix(t, k) {
        lemma_wrap_accessor_rest(t, r, SpecValue::Accessor(Box::new(base), Box::new(key)));
    }
}

pub proof fn lemma_wrap_accessor_chain(t: Seq<char>, k: int)
    requires
        0 <= k <= t.len(),
    ensures
        parse_accessor_chain(wrap(t), k + 1) == shifted(parse_accessor_chain(t, k)),
{
    lemma_wrap_identifier(t, k);
    lemma_identifier(t, k);
    if let Some((q, name)) = lex_identifier(t, k) {
        lemma_wrap_accessor_rest(t, q, SpecValue::Identifier(name));
    }
}

pub proof fn lemma_wrap_function_call(t: Seq<char>, k: int)
    requires
        0 <= k <= t.len(),
    ensures
        ({
            let rs = parse_function_call(wrap(t), k + 1);
            let rt = parse_function_call(t, k);
            ||| rs == shifted(rt)
            ||| rs is Some && rs->Some_0.0 == t.len() + 2 && rt is None && lex_identifier(t, k) is Some
                && at(t, skip_ws(t, lex_identifier(t, k)->Some_0.0), '(')
        }),
{
    lemma_wrap(t);
    lemma_wrap_identifier(t, k);
    lemma_identifier(t, k);
    if let Some((q, name)) = lex_identifier(t, k) {
        lemma_skip_ws(t, q);
        lemma_wrap_skip_ws(t, q);
        let u = skip_ws(t, q);
        if at(t, u, '(') {
            lemma_wrap_call_args(t, u + 1);
        }
    }
}

pub open spec fn shifted3(r: Option<(int, Seq<char>, Seq<SpecValue>)>) -> Option<
    (int, Seq<char>, Seq<SpecValue>),
> {
    match r {
        Some((e, n, a)) => Some((e + 1, n, a)),
        None => None,
    }
}

pub proof fn lemma_wrap_method_suffix(t: Seq<char>, k: int)
    requires
        0 <= k <= t.len(),
    ensures
        ({
            let rs = parse_method_suffix(wrap(t), k + 1);
            let rt = parse_method_suffix(t, k);
            ||| rs == shifted3(rt)
            ||| rs is Some && rs->Some_0.0 == t.len() + 2 && rt is None && at(t, skip_ws(t, k), ':')
        }),
{
    let q = skip_ws(t, k);
    lemma_wrap(t);
    lemma_skip_ws(t, k);
    lemma_wrap_skip_ws(t, k);
    if at(t, q, ':') {
        lemma_skip_ws(t, q + 1);
        lemma_wrap_skip_ws(t, q + 1);
        lemma_wrap_identifier(t, skip_ws(t, q + 1));
        lemma_identifier(t, skip_ws(t, q + 1));
        if let Some((r, name)) = lex_identifier(t, skip_ws(t, q + 1)) {
            lemma_skip_ws(t, r);
            lemma_wrap_skip_ws(t, r);
            let u = skip_ws(t, r);
            if at(t, u, '(') {
                lemma_wrap_call_args(t, u + 1);
            }
        }
    }
}

/// At the end of the input no suffix, operator or repetition continues.
pub proof fn lemma_end(x: Seq<char>)
    ensures
        skip_ws(x, x.len() as int) == x.len(),
        parse_method_suffix(x, x.len() as int) is None,
        forall|l: nat| #[trigger] match_op(x, x.len() as int, l) is None,
{
}

pub proof fn lemma_wrap_method_rest(t: Seq<char>, k: int, recv: SpecValue)
    requires
        0 <= k <= t.len(),
    ensures
        related_rest(t, parse_method_rest(wrap(t), k + 1, recv), parse_method_rest(t, k, recv), -1),
    decreases t.len() - k,
{
    lemma_wrap(t);
    lemma_wrap_method_suffix(t, k);
    lemma_method_suffix(t, k);
    lemma_end(wrap(t));
    match parse_method_suffix(t, k) {
        Some((r, name, args)) => {
            lemma_wrap_method_rest(t, r, SpecValue::MethodCall(Box::new(recv), name, args));
        },
        None => {
            if parse_method_suffix(wrap(t), k + 1) is Some {
                let (e, n, a) = parse_method_suffix(wrap(t), k + 1)->Some_0;
                assert(parse_method_rest(
                    wrap(t),
                    e,
                    SpecValue::MethodCall(Box::new(recv), n, a),
                ).0 == e);
                lemma_skip_ws(t, k);
            }
        },
    }
}

pub proof fn lemma_wrap_method_call(t: Seq<char>, k: int)
    requires
        0 <= k <= t.len(),
    ensures
        related(t, parse_method_call(wrap(t), k + 1), parse_method_call(t, k), -1),
        (parse_method_call(wrap(t), k + 1) != shifted(parse_method_call(t, k)) && parse_method_call(
            t,
            k,
        ) is None) ==> (parse_accessor_chain(t, k) is Some && at(
            t,
            skip_ws(t, parse_accessor_chain(t, k)->Some_0.0),
            ':',
        )),
{
    lemma_wrap(t);
    lemma_wrap_accessor_chain(t, k);
    lemma_accessor_chain(t, k);
    lemma_end(wrap(t));
    if let Some((q, base)) = parse_accessor_chain(t, k) {
        lemma_wrap_method_suffix(t, q);
        lemma_method_suffix(t, q);
        match parse_method_suffix(t, q) {
            Some((r, name, args)) => {
                lemma_wrap_method_rest(t, r, SpecValue::MethodCall(Box::new(base), name, args));
                lemma_method_rest(t, r, SpecValue::MethodCall(Box::new(base), name, args));
            },
            None => {
                if parse_method_suffix(wrap(t), q + 1) is Some {
                    let (e, n, a) = parse_method_suffix(wrap(t), q + 1)->Some_0;
                    assert(parse_method_rest(
                        wrap(t),
                        e,
                        SpecValue::MethodCall(Box::new(base), n, a),
                    ).0 == e);
                }
            },
        }
    }
}

/// Where a method call on `wrap(t)` takes the closing parenthesis but fails on `t`, the
/// value on `t` is the accessor chain, which stops before the ':'.
proof fn lemma_value_method_diverges(t: Seq<char>, q: int)
    requires
        0 <= q <= t.len(),
        parse_method_call(t, q) is None,
        parse_accessor_chain(t, q) is Some,
        at(t, skip_ws(t, parse_accessor_chain(t, q)->Some_0.0), ':'),
    ensures
        parse_function_call(t, q) is None,
        blocked(t, parse_accessor_chain(t, q)->Some_0.0, -1),
{
    let (idend, name) = lex_identifier(t, q)->Some_0;
    lemma_identifier(t, q);
    lemma_skip_ws(t, idend);
    let q2 = parse_accessor_chain(t, q)->Some_0.0;
    lemma_skip_ws(t, q2);
    assert(parse_accessor_chain(t, q) == Some(
        parse_accessor_rest(t, idend, SpecValue::Identifier(name)),
    ));
    if parse_accessor_suffix(t, idend) is None {
        assert(q2 == idend);
    }
    let c = t[skip_ws(t, q2)];
    assert(c == ':');
}

/// Where a function call on `wrap(t)` takes the closing parenthesis but fails on `t`, the
/// value on `t` is the bare identifier, which stops before the '('.
proof fn lemma_value_call_diverges(t: Seq<char>, q: int)
    requires
        0 <= q <= t.len(),
        lex_identifier(t, q) is Some,
        at(t, skip_ws(t, lex_identifier(t, q)->Some_0.0), '('),
    ensures
        parse_accessor_chain(t, q) == Some(
            (lex_identifier(t, q)->Some_0.0, SpecValue::Identifier(lex_identifier(t, q)->Some_0.1)),
        ),
        blocked(t, lex_identifier(t, q)->Some_0.0, -1),
{
    let (idend, name) = lex_identifier(t, q)->Some_0;
    lemma_identifier(t, q);
    lemma_skip_ws(t, idend);
    assert(parse_accessor_suffix(t, idend) is None);
}

pub proof fn lemma_wrap_value(t: Seq<char>, k: int)
    requires
        0 <= k <= t.len(),
    ensures
        related(t, parse_value(wrap(t), k + 1), parse_value(t, k), -1),
{
    let q = skip_ws(t, k);
    lemma_skip_ws(t, k);
    lemma_wrap_skip_ws(t, k);
    lemma_wrap_method_call(t, q);
    lemma_wrap_function_call(t, q);
    lemma_wrap_accessor_chain(t, q);
    lemma_wrap_float(t, q);
    lemma_wrap_integer(t, q);
    lemma_wrap_string(t, q);
    let s = wrap(t);
    let at_ = parse_method_call(t, q);
    let bt = parse_function_call(t, q);
    if parse_method_call(s, q + 1) != shifted(at_) && at_ is None {
        lemma_value_method_diverges(t, q);
    } else if at_ is None && parse_function_call(s, q + 1) != shifted(bt) && bt is None {
        lemma_value_call_diverges(t, q);
    }
}

/// Where no binary operator of any level starts at `q`.
pub proof fn lemma_ops_disjoint(t: Seq<char>, q: int, level: nat)
    requires
        match_op(t, q, level) is Some,
    ensures
        forall|l: nat| level < l <= 4 ==> #[trigger] match_op(t, q, l) is None,
        t[q] != ')',
        0 <= q < t.len(),
{
}

pub proof fn lemma_wrap_binary(t: Seq<char>, k: int, level: nat)
    requires
        0 <= k <= t.len(),
        level <= 4,
    ensures
        related(t, parse_binary(wrap(t), k + 1, level), parse_binary(t, k, level), level as int),
    decreases t.len() - k, 2 * level + 3,
{
    let s = wrap(t);
    lemma_wrap(t);
    lemma_end(s);
    let first_t = if level == 0 {
        lemma_wrap_unary(t, k);
        lemma_unary(t, k);
        parse_unary(t, k)
    } else {
        lemma_wrap_binary(t, k, (level - 1) as nat);
        lemma_binary(t, k, (level - 1) as nat);
        parse_binary(t, k, (level - 1) as nat)
    };
    let first_s = if level == 0 {
        parse_unary(s, k + 1)
    } else {
        parse_binary(s, k + 1, (level - 1) as nat)
    };
    assert(related(t, first_s, first_t, level - 1));
    if first_s == shifted(first_t) {
        if let Some((q, left)) = first_t {
            lemma_wrap_binary_rest(t, q, level, left);
        }
    } else {
        let (e, left_s) = first_s->Some_0;
        assert(parse_binary_rest(s, e, level, left_s) == (e, left_s));
        if let Some((q, left)) = first_t {
            assert(match_op(t, skip_ws(t, q), level) is None);
            assert(parse_binary_rest(t, q, level, left) == (q, left));
        }
    }
}

pub proof fn lemma_wrap_binary_rest(t: Seq<char>, k: int, level: nat, left: SpecValue)
    requires
        0 <= k <= t.len(),
        level <= 4,
    ensures
        related_rest(
            t,
            parse_binary_rest(wrap(t), k + 1, level, left),
            parse_binary_rest(t, k, level, left),
            level as int,
        ),
    decreases t.len() - k, 2 * level + 2,
{
    let s = wrap(t);
    let q = skip_ws(t, k);
    lemma_wrap(t);
    lemma_end(s);
    lemma_skip_ws(t, k);
    lemma_wrap_skip_ws(t, k);
    lemma_wrap_match_op(t, q, level);
    if let Some((r, op)) = match_op(t, q, level) {
        lemma_ops_disjoint(t, q, level);
        let operand_t = if level == 0 {
            lemma_wrap_unary(t, r);
            lemma_unary(t, r);
            parse_unary(t, r)
        } else {
            lemma_wrap_binary(t, r, (level - 1) as nat);
            lemma_binary(t, r, (level - 1) as nat);
            parse_binary(t, r, (level - 1) as nat)
        };
        let operand_s = if level == 0 {
            parse_unary(s, r + 1)
        } else {
            parse_binary(s, r + 1, (level - 1) as nat)
        };
        assert(related(t, operand_s, operand_t, level - 1));
        if operand_s == shifted(operand_t) {
            if let Some((u, right)) = operand_t {
                lemma_wrap_binary_rest(
                    t,
                    u,
                    level,
                    SpecValue::BinaryOp(op, Box::new(left), Box::new(right)),
                );
            }
        } else {
            let (e, right_s) = operand_s->Some_0;
            assert(parse_binary_rest(
                s,
                e,
                level,
                SpecValue::BinaryOp(op, Box::new(left), Box::new(right_s)),
            ).0 == e);
            if let Some((u, right)) = operand_t {
                assert(match_op(t, skip_ws(t, u), level) is None);
                assert(parse_binary_rest(
                    t,
                    u,
                    level,
                    SpecValue::BinaryOp(op, Box::new(left), Box::new(right)),
                ).0 == u);
            } else {
                assert(blocked(t, k, level as int));
            }
        }
    }
}

pub proof fn lemma_wrap_unary(t: Seq<char>, k: int)
    requires
        0 <= k <= t.len(),
    ensures
        related(t, parse_unary(wrap(t), k + 1), parse_unary(t, k), -1),
    decreases t.len() - k, 1int,
{
    let s = wrap(t);
    let q = skip_ws(t, k);
    lemma_wrap(t);
    lemma_skip_ws(t, k);
    lemma_wrap_skip_ws(t, k);
    lemma_wrap_match_unary_op(t, q);
    lemma_wrap_primary(t, q);
    if let Some(op) = match_unary_op(t, q) {
        lemma_wrap_unary(t, q + 1);
        // no value starts with an operator character
        assert(skip_ws(t, q) == q);
        assert(parse_primary(t, q) is None);
    }
}

pub proof fn lemma_wrap_primary(t: Seq<char>, k: int)
    requires
        0 <= k <= t.len(),
    ensures
        related(t, parse_primary(wrap(t), k + 1), parse_primary(t, k), -1),
    decreases t.len() - k, 0int,
{
    let s = wrap(t);
    let q = skip_ws(t, k);
    lemma_wrap(t);
    lemma_end(s);
    lemma_skip_ws(t, k);
    lemma_wrap_skip_ws(t, k);
    if at(t, q, '(') {
        lemma_wrap_binary(t, q + 1, 4);
        lemma_binary(t, q + 1, 4);
        if let Some((r, v)) = parse_binary(t, q + 1, 4) {
            lemma_skip_ws(t, r);
            lemma_wrap_skip_ws(t, r);
        }
    } else {
        lemma_wrap_value(t, q);
    }
}

/// `unary` skips the whitespace it starts at.
proof fn lemma_unary_skip(x: Seq<char>, p: int)
    requires
        0 <= p <= x.len(),
    ensures
        parse_unary(x, p) == parse_unary(x, skip_ws(x, p)),
{
    let q = skip_ws(x, p);
    lemma_skip_ws(x, p);
    lemma_skip_ws(x, q);
    assert(skip_ws(x, q) == q);
}

/// A binary rule answers the same from before the whitespace it starts at.
proof fn lemma_binary_skip(x: Seq<char>, p: int, level: nat)
    requires
        0 <= p <= x.len(),
    ensures
        parse_binary(x, p, level) == parse_binary(x, skip_ws(x, p), level),
    decreases level,
{
    let q = skip_ws(x, p);
    lemma_skip_ws(x, p);
    if level == 0 {
        lemma_unary_skip(x, p);
        lemma_unary(x, q);
    } else {
        lemma_binary_skip(x, p, (level - 1) as nat);
        lemma_binary(x, q, (level - 1) as nat);
    }
}

/// A binary rule whose first operand takes the whole input answers with that operand.
proof fn lemma_binary_whole(x: Seq<char>, p: int, level: nat, v: SpecValue)
    requires
        0 <= p <= x.len(),
        parse_unary(x, p) == Some((x.len() as int, v)),
    ensures
        parse_binary(x, p, level) == Some((x.len() as int, v)),
    decreases level,
{
    lemma_end(x);
    if level > 0 {
        lemma_binary_whole(x, p, (level - 1) as nat, v);
    }
    assert(parse_binary_rest(x, x.len() as int, level, v) == (x.len() as int, v));
}

/// Putting parentheses around an expression gives the same value: where `t` parses to
/// `v`, so does `"(" + t + ")"`, and it stands as an operand of an operator of any
/// level with that value, which is how parentheses override precedence.
pub proof fn law_parenthesized(t: Seq<char>)
    ensures
        spec_parse(t) matches Ok(v) ==> {
            &&& spec_parse(wrap(t)) == Ok::<SpecValue, crate::grammar::ParseError>(v)
            &&& forall|l: nat| l <= 4 ==> #[trigger] operand_parses(wrap(t), l, v)
        },
{
    if let Ok(v) = spec_parse(t) {
        let s = wrap(t);
        lemma_wrap(t);
        lemma_end(s);
        let q0 = skip_ws(t, 0);
        lemma_skip_ws(t, 0);
        lemma_wrap_skip_ws(t, 0);
        lemma_wrap_binary(t, q0, 4);
        lemma_binary(t, q0, 4);
        let r = parse_binary(t, q0, 4)->Some_0.0;
        lemma_skip_ws(t, r);
        lemma_wrap_skip_ws(t, r);
        assert(parse_binary(s, q0 + 1, 4) == Some((r + 1, v)));
        lemma_binary_skip(s, 1, 4);
        assert(skip_ws(s, 0) == 0);
        assert(parse_primary(s, 0) == Some((t.len() + 2int, v)));
        assert(parse_unary(s, 0) == Some((t.len() + 2int, v)));
        lemma_binary_whole(s, 0, 4, v);
        assert forall|l: nat| l <= 4 implies #[trigger] operand_parses(s, l, v) by {
            if l > 0 {
                lemma_binary_whole(s, 0, (l - 1) as nat, v);
            }
        }
    }
}

} // verus!
