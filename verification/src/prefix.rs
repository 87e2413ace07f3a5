//! The rules never read to the left of where they start: on `u + y`, a rule at `|u| + k`
//! answers what it answers on `y` at `k`, moved `|u|` positions to the right.
use vstd::prelude::*;
use crate::grammar::{
    at, is_ws, is_digit, is_ident_char, is_ident_start, skip_ws, scan_digits, scan_ident,
    lex_identifier, lex_digits, lex_integer, lex_signed_integer, exponent_end, float_end,
    lex_float, lex_signed_float, string_close, lex_string, parse_arg, parse_args_rest,
    parse_call_args, parse_index_value, parse_accessor_suffix, parse_accessor_rest,
    parse_accessor_chain, parse_function_call, parse_method_suffix, parse_method_rest,
    parse_method_call, parse_value, match_op, match_unary_op, parse_binary, parse_binary_rest,
    parse_unary, parse_primary, lemma_skip_ws, lemma_scan_digits, lemma_scan_ident,
};
use crate::laws::{
    lemma_identifier, lemma_arg, lemma_args_rest, lemma_accessor_suffix, lemma_method_suffix,
    lemma_binary, lemma_unary, lemma_string_close, lemma_signed_integer, lemma_string,
};
use crate::value::SpecValue;

verus! {

/// A result moved `n` positions to the right.
pub open spec fn shift_by<A>(r: Option<(int, A)>, n: int) -> Option<(int, A)> {
    match r {
        Some((e, a)) => Some((e + n, a)),
        None => None,
    }
}

pub open spec fn shift_pos_by(r: Option<int>, n: int) -> Option<int> {
    match r {
        Some(e) => Some(e + n),
        None => None,
    }
}

pub open spec fn shift3_by(r: Option<(int, Seq<char>, Seq<SpecValue>)>, n: int) -> Option<
    (int, Seq<char>, Seq<SpecValue>),
> {
    match r {
        Some((e, a, b)) => Some((e + n, a, b)),
        None => None,
    }
}

pub proof fn lemma_pre(u: Seq<char>, y: Seq<char>)
    ensures
        (u + y).len() == u.len() + y.len(),
        forall|i: int| 0 <= i < y.len() ==> (u + y)[u.len() + i] == #[trigger] y[i],
{
}

pub proof fn lemma_pre_skip_ws(u: Seq<char>, y: Seq<char>, k: int)
    requires
        0 <= k <= y.len(),
    ensures
        skip_ws(u + y, u.len() + k) == skip_ws(y, k) + u.len(),
    decreases y.len() - k,
{
    lemma_pre(u, y);
    if k < y.len() && is_ws(y[k]) {
        lemma_pre_skip_ws(u, y, k + 1);
    }
}

pub proof fn lemma_pre_scan_digits(u: Seq<char>, y: Seq<char>, k: int)
    requires
        0 <= k <= y.len(),
    ensures
        scan_digits(u + y, u.len() + k) == scan_digits(y, k) + u.len(),
    decreases y.len() - k,
{
    lemma_pre(u, y);
    if k < y.len() && is_digit(y[k]) {
        lemma_pre_scan_digits(u, y, k + 1);
    }
}

pub proof fn lemma_pre_scan_ident(u: Seq<char>, y: Seq<char>, k: int)
    requires
        0 <= k <= y.len(),
    ensures
        scan_ident(u + y, u.len() + k) == scan_ident(y, k) + u.len(),
    decreases y.len() - k,
{
    lemma_pre(u, y);
    if k < y.len() && is_ident_char(y[k]) {
        lemma_pre_scan_ident(u, y, k + 1);
    }
}

pub proof fn lemma_pre_string_close(u: Seq<char>, y: Seq<char>, k: int)
    requires
        0 <= k <= y.len(),
    ensures
        string_close(u + y, u.len() + k) == shift_pos_by(string_close(y, k), u.len() as int),
    decreases y.len() - k,
{
    lemma_pre(u, y);
    if k < y.len() && y[k] != '"' {
        if y[k] == '\\' {
            if k + 1 < y.len() {
                lemma_pre_string_close(u, y, k + 2);
            }
        } else {
            lemma_pre_string_close(u, y, k + 1);
        }
    }
}

pub proof fn lemma_pre_identifier(u: Seq<char>, y: Seq<char>, k: int)
    requires
        0 <= k <= y.len(),
    ensures
        lex_identifier(u + y, u.len() + k) == shift_by(lex_identifier(y, k), u.len() as int),
{
    lemma_pre(u, y);
    if k < y.len() && is_ident_start(y[k]) {
        lemma_pre_scan_ident(u, y, k + 1);
        lemma_scan_ident(y, k + 1);
        let e = scan_ident(y, k + 1);
        assert((u + y).subrange(u.len() + k, u.len() + e) =~= y.subrange(k, e));
    }
}

pub proof fn lemma_pre_digits(u: Seq<char>, y: Seq<char>, k: int)
    requires
        0 <= k <= y.len(),
    ensures
        lex_digits(u + y, u.len() + k) == shift_pos_by(lex_digits(y, k), u.len() as int),
        lex_digits(y, k) matches Some(e) ==> k < e <= y.len(),
{
    lemma_pre(u, y);
    if k < y.len() && is_digit(y[k]) {
        lemma_pre_scan_digits(u, y, k + 1);
        lemma_scan_digits(y, k + 1);
    }
}

pub proof fn lemma_pre_integer(u: Seq<char>, y: Seq<char>, k: int)
    requires
        0 <= k <= y.len(),
    ensures
        lex_integer(u + y, u.len() + k) == shift_by(lex_integer(y, k), u.len() as int),
{
    lemma_pre(u, y);
    lemma_pre_digits(u, y, k);
    if let Some(e) = lex_digits(y, k) {
        assert((u + y).subrange(u.len() + k, u.len() + e) =~= y.subrange(k, e));
    }
}

pub proof fn lemma_pre_signed_integer(u: Seq<char>, y: Seq<char>, k: int)
    requires
        0 <= k <= y.len(),
    ensures
        lex_signed_integer(u + y, u.len() + k) == shift_by(
            lex_signed_integer(y, k),
            u.len() as int,
        ),
{
    lemma_pre(u, y);
    if at(y, k, '-') {
        lemma_pre_digits(u, y, k + 1);
        if let Some(e) = lex_digits(y, k + 1) {
            assert((u + y).subrange(u.len() + k + 1, u.len() + e) =~= y.subrange(k + 1, e));
        }
    } else {
        lemma_pre_integer(u, y, k);
    }
}

pub proof fn lemma_pre_exponent_end(u: Seq<char>, y: Seq<char>, k: int)
    requires
        0 <= k <= y.len(),
    ensures
        exponent_end(u + y, u.len() + k) == exponent_end(y, k) + u.len(),
{
    lemma_pre(u, y);
    if at(y, k, 'e') || at(y, k, 'E') {
        let f = if at(y, k + 1, '+') || at(y, k + 1, '-') {
            k + 2
        } else {
            k + 1
        };
        lemma_pre_digits(u, y, f);
    }
}

#[verifier::spinoff_prover]
#[verifier::rlimit(30)]
pub proof fn lemma_pre_float_end(u: Seq<char>, y: Seq<char>, k: int)
    requires
        0 <= k <= y.len(),
    ensures
        float_end(u + y, u.len() + k) == shift_pos_by(float_end(y, k), u.len() as int),
        float_end(y, k) matches Some(e) ==> k < e <= y.len(),
{
    lemma_pre(u, y);
    lemma_pre_digits(u, y, k);
    if let Some(e1) = lex_digits(y, k) {
        if at(y, e1, '.') {
            lemma_pre_digits(u, y, e1 + 1);
            if let Some(e2) = lex_digits(y, e1 + 1) {
                lemma_pre_exponent_end(u, y, e2);
                crate::parens::lemma_wrap_exponent_end(y, e2);
            }
        }
    }
}

pub proof fn lemma_pre_float(u: Seq<char>, y: Seq<char>, k: int)
    requires
        0 <= k <= y.len(),
    ensures
        lex_float(u + y, u.len() + k) == shift_by(lex_float(y, k), u.len() as int),
{
    lemma_pre(u, y);
    lemma_pre_float_end(u, y, k);
    if let Some(e) = float_end(y, k) {
        assert((u + y).subrange(u.len() + k, u.len() + e) =~= y.subrange(k, e));
    }
}

#[verifier::spinoff_prover]
#[verifier::rlimit(30)]
pub proof fn lemma_pre_signed_float(u: Seq<char>, y: Seq<char>, k: int)
    requires
        0 <= k <= y.len(),
    ensures
        lex_signed_float(u + y, u.len() + k) == shift_by(lex_signed_float(y, k), u.len() as int),
{
    lemma_pre(u, y);
    let q = if at(y, k, '-') {
        k + 1
    } else {
        k
    };
    lemma_pre_float_end(u, y, q);
    if let Some(e) = float_end(y, q) {
        assert((u + y).subrange(u.len() + k, u.len() + e) =~= y.subrange(k, e));
    }
}

pub proof fn lemma_pre_string(u: Seq<char>, y: Seq<char>, k: int)
    requires
        0 <= k <= y.len(),
    ensures
        lex_string(u + y, u.len() + k) == shift_by(lex_string(y, k), u.len() as int),
{
    lemma_pre(u, y);
    if at(y, k, '"') {
        lemma_pre_string_close(u, y, k + 1);
        lemma_string_close(y, k + 1);
        if let Some(c) = string_close(y, k + 1) {
            assert((u + y).subrange(u.len() + k + 1, u.len() + c) =~= y.subrange(k + 1, c));
        }
    }
}

pub proof fn lemma_pre_match_op(u: Seq<char>, y: Seq<char>, q: int, level: nat)
    requires
        0 <= q <= y.len(),
    ensures
        match_op(u + y, u.len() + q, level) == shift_by(match_op(y, q, level), u.len() as int),
{
    lemma_pre(u, y);
}

pub proof fn lemma_pre_match_unary_op(u: Seq<char>, y: Seq<char>, q: int)
    requires
        0 <= q <= y.len(),
    ensures
        match_unary_op(u + y, u.len() + q) == match_unary_op(y, q),
{
    lemma_pre(u, y);
}

#[verifier::spinoff_prover]
#[verifier::rlimit(30)]
pub proof fn lemma_pre_arg(u: Seq<char>, y: Seq<char>, k: int)
    requires
        0 <= k <= y.len(),
    ensures
        parse_arg(u + y, u.len() + k) == shift_by(parse_arg(y, k), u.len() as int),
{
    let q = skip_ws(y, k);
    lemma_skip_ws(y, k);
    lemma_pre_skip_ws(u, y, k);
    lemma_pre_signed_float(u, y, q);
    lemma_pre_signed_integer(u, y, q);
    lemma_pre_string(u, y, q);
}

#[verifier::spinoff_prover]
#[verifier::rlimit(30)]
pub proof fn lemma_pre_args_rest(u: Seq<char>, y: Seq<char>, k: int, acc: Seq<SpecValue>)
    requires
        0 <= k <= y.len(),
    ensures
        parse_args_rest(u + y, u.len() + k, acc) == (
            parse_args_rest(y, k, acc).0 + u.len(),
            parse_args_rest(y, k, acc).1,
        ),
    decreases y.len() - k,
{
    let q = skip_ws(y, k);
    lemma_pre(u, y);
    lemma_skip_ws(y, k);
    lemma_pre_skip_ws(u, y, k);
    if at(y, q, ',') {
        lemma_pre_arg(u, y, q + 1);
        lemma_arg(y, q + 1);
        if let Some((r, a)) = parse_arg(y, q + 1) {
            lemma_pre_args_rest(u, y, r, acc.push(a));
        }
    }
}

#[verifier::spinoff_prover]
#[verifier::rlimit(30)]
pub proof fn lemma_pre_call_args(u: Seq<char>, y: Seq<char>, k: int)
    requires
        0 <= k <= y.len(),
    ensures
        parse_call_args(u + y, u.len() + k) == shift_by(parse_call_args(y, k), u.len() as int),
{
    lemma_pre_arg(u, y, k);
    lemma_arg(y, k);
    let q = match parse_arg(y, k) {
        Some((r, a)) => {
            lemma_pre_args_rest(u, y, r, seq![a]);
            lemma_args_rest(y, r, seq![a]);
            parse_args_rest(y, r, seq![a]).0
        },
        None => k,
    };
    lemma_skip_ws(y, q);
    lemma_pre_skip_ws(u, y, q);
}

pub proof fn lemma_pre_index_value(u: Seq<char>, y: Seq<char>, k: int)
    requires
        0 <= k <= y.len(),
    ensures
        parse_index_value(u + y, u.len() + k) == shift_by(parse_index_value(y, k), u.len() as int),
{
    lemma_pre_signed_integer(u, y, k);
    lemma_pre_string(u, y, k);
}

#[verifier::spinoff_prover]
#[verifier::rlimit(30)]
pub proof fn lemma_pre_accessor_suffix(u: Seq<char>, y: Seq<char>, k: int)
    requires
        0 <= k <= y.len(),
    ensures
        parse_accessor_suffix(u + y, u.len() + k) == shift_by(
            parse_accessor_suffix(y, k),
            u.len() as int,
        ),
{
    let q = skip_ws(y, k);
    lemma_pre(u, y);
    lemma_skip_ws(y, k);
    lemma_pre_skip_ws(u, y, k);
    if at(y, q, '.') {
        lemma_skip_ws(y, q + 1);
        lemma_pre_skip_ws(u, y, q + 1);
        lemma_pre_identifier(u, y, skip_ws(y, q + 1));
    } else if at(y, q, '[') {
        let q1 = skip_ws(y, q + 1);
        lemma_skip_ws(y, q + 1);
        lemma_pre_skip_ws(u, y, q + 1);
        lemma_pre_index_value(u, y, q1);
        lemma_signed_integer(y, q1);
        lemma_string(y, q1);
        if let Some((r, key)) = parse_index_value(y, q1) {
            lemma_skip_ws(y, r);
            lemma_pre_skip_ws(u, y, r);
        }
    }
}

#[verifier::spinoff_prover]
#[verifier::rlimit(30)]
pub proof fn lemma_pre_accessor_rest(u: Seq<char>, y: Seq<char>, k: int, base: SpecValue)
    requires
        0 <= k <= y.len(),
    ensures
        parse_accessor_rest(u + y, u.len() + k, base) == (
            parse_accessor_rest(y, k, base).0 + u.len(),
            parse_accessor_rest(y, k, base).1,
        ),
    decreases y.len() - k,
{
    lemma_pre(u, y);
    lemma_pre_accessor_suffix(u, y, k);
    lemma_accessor_suffix(y, k);
    if let Some((r, key)) = parse_accessor_suffix(y, k) {
        lemma_pre_accessor_rest(u, y, r, SpecValue::Accessor(Box::new(base), Box::new(key)));
    }
}

pub proof fn lemma_pre_accessor_chain(u: Seq<char>, y: Seq<char>, k: int)
    requires
        0 <= k <= y.len(),
    ensures
        parse_accessor_chain(u + y, u.len() + k) == shift_by(
            parse_accessor_chain(y, k),
            u.len() as int,
        ),
{
    lemma_pre_identifier(u, y, k);
    lemma_identifier(y, k);
    if let Some((q, name)) = lex_identifier(y, k) {
        lemma_pre_accessor_rest(u, y, q, SpecValue::Identifier(name));
    }
}

#[verifier::spinoff_prover]
#[verifier::rlimit(30)]
pub proof fn lemma_pre_function_call(u: Seq<char>, y: Seq<char>, k: int)
    requires
        0 <= k <= y.len(),
    ensures
        parse_function_call(u + y, u.len() + k) == shift_by(
            parse_function_call(y, k),
            u.len() as int,
        ),
{
    lemma_pre(u, y);
    lemma_pre_identifier(u, y, k);
    lemma_identifier(y, k);
    if let Some((q, name)) = lex_identifier(y, k) {
        lemma_skip_ws(y, q);
        lemma_pre_skip_ws(u, y, q);
        let t = skip_ws(y, q);
        if at(y, t, '(') {
            lemma_pre_call_args(u, y, t + 1);
        }
    }
}

#[verifier::spinoff_prover]
#[verifier::rlimit(30)]
pub proof fn lemma_pre_method_suffix(u: Seq<char>, y: Seq<char>, k: int)
    requires
        0 <= k <= y.len(),
    ensures
        parse_method_suffix(u + y, u.len() + k) == shift3_by(
            parse_method_suffix(y, k),
            u.len() as int,
        ),
{
    let q = skip_ws(y, k);
    lemma_pre(u, y);
    lemma_skip_ws(y, k);
    lemma_pre_skip_ws(u, y, k);
    if at(y, q, ':') {
        lemma_skip_ws(y, q + 1);
        lemma_pre_skip_ws(u, y, q + 1);
        lemma_pre_identifier(u, y, skip_ws(y, q + 1));
        lemma_identifier(y, skip_ws(y, q + 1));
        if let Some((r, name)) = lex_identifier(y, skip_ws(y, q + 1)) {
            lemma_skip_ws(y, r);
            lemma_pre_skip_ws(u, y, r);
            let t = skip_ws(y, r);
            if at(y, t, '(') {
                lemma_pre_call_args(u, y, t + 1);
            }
        }
    }
}

#[verifier::spinoff_prover]
#[verifier::rlimit(30)]
pub proof fn lemma_pre_method_rest(u: Seq<char>, y: Seq<char>, k: int, recv: SpecValue)
    requires
        0 <= k <= y.len(),
    ensures
        parse_method_rest(u + y, u.len() + k, recv) == (
            parse_method_rest(y, k, recv).0 + u.len(),
            parse_method_rest(y, k, recv).1,
        ),
    decreases y.len() - k,
{
    lemma_pre(u, y);
    lemma_pre_method_suffix(u, y, k);
    lemma_method_suffix(y, k);
    if let Some((r, name, args)) = parse_method_suffix(y, k) {
        lemma_pre_method_rest(u, y, r, SpecValue::MethodCall(Box::new(recv), name, args));
    }
}

#[verifier::spinoff_prover]
#[verifier::rlimit(30)]
pub proof fn lemma_pre_method_call(u: Seq<char>, y: Seq<char>, k: int)
    requires
        0 <= k <= y.len(),
    ensures
        parse_method_call(u + y, u.len() + k) == shift_by(parse_method_call(y, k), u.len() as int),
{
    lemma_pre_accessor_chain(u, y, k);
    crate::laws::lemma_accessor_chain(y, k);
    if let Some((q, base)) = parse_accessor_chain(y, k) {
        lemma_pre_method_suffix(u, y, q);
        lemma_method_suffix(y, q);
        if let Some((r, name, args)) = parse_method_suffix(y, q) {
            lemma_pre_method_rest(u, y, r, SpecValue::MethodCall(Box::new(base), name, args));
        }
    }
}

#[verifier::spinoff_prover]
#[verifier::rlimit(30)]
pub proof fn lemma_pre_value(u: Seq<char>, y: Seq<char>, k: int)
    requires
        0 <= k <= y.len(),
    ensures
        parse_value(u + y, u.len() + k) == shift_by(parse_value(y, k), u.len() as int),
{
    let q = skip_ws(y, k);
    lemma_skip_ws(y, k);
    lemma_pre_skip_ws(u, y, k);
    lemma_pre_method_call(u, y, q);
    lemma_pre_function_call(u, y, q);
    lemma_pre_accessor_chain(u, y, q);
    lemma_pre_float(u, y, q);
    lemma_pre_integer(u, y, q);
    lemma_pre_string(u, y, q);
}

#[verifier::spinoff_prover]
#[verifier::rlimit(30)]
pub proof fn lemma_pre_binary(u: Seq<char>, y: Seq<char>, k: int, level: nat)
    requires
        0 <= k <= y.len(),
    ensures
        parse_binary(u + y, u.len() + k, level) == shift_by(
            parse_binary(y, k, level),
            u.len() as int,
        ),
    decreases y.len() - k, 2 * level + 3,
{
    lemma_pre(u, y);
    let first = if level == 0 {
        lemma_pre_unary(u, y, k);
        lemma_unary(y, k);
        parse_unary(y, k)
    } else {
        lemma_pre_binary(u, y, k, (level - 1) as nat);
        lemma_binary(y, k, (level - 1) as nat);
        parse_binary(y, k, (level - 1) as nat)
    };
    if let Some((q, left)) = first {
        lemma_pre_binary_rest(u, y, q, level, left);
    }
}

#[verifier::spinoff_prover]
#[verifier::rlimit(30)]
pub proof fn lemma_pre_binary_rest(u: Seq<char>, y: Seq<char>, k: int, level: nat, left: SpecValue)
    requires
        0 <= k <= y.len(),
    ensures
        parse_binary_rest(u + y, u.len() + k, level, left) == (
            parse_binary_rest(y, k, level, left).0 + u.len(),
            parse_binary_rest(y, k, level, left).1,
        ),
    decreases y.len() - k, 2 * level + 2,
{
    let q = skip_ws(y, k);
    lemma_pre(u, y);
    lemma_skip_ws(y, k);
    lemma_pre_skip_ws(u, y, k);
    lemma_pre_match_op(u, y, q, level);
    if let Some((r, op)) = match_op(y, q, level) {
        let operand = if level == 0 {
            lemma_pre_unary(u, y, r);
            lemma_unary(y, r);
            parse_unary(y, r)
        } else {
            lemma_pre_binary(u, y, r, (level - 1) as nat);
            lemma_binary(y, r, (level - 1) as nat);
            parse_binary(y, r, (level - 1) as nat)
        };
        if let Some((t, right)) = operand {
            lemma_pre_binary_rest(
                u,
                y,
                t,
                level,
                SpecValue::BinaryOp(op, Box::new(left), Box::new(right)),
            );
        }
    }
}

#[verifier::spinoff_prover]
#[verifier::rlimit(30)]
pub proof fn lemma_pre_unary(u: Seq<char>, y: Seq<char>, k: int)
    requires
        0 <= k <= y.len(),
    ensures
        parse_unary(u + y, u.len() + k) == shift_by(parse_unary(y, k), u.len() as int),
    decreases y.len() - k, 1int,
{
    let q = skip_ws(y, k);
    lemma_pre(u, y);
    lemma_skip_ws(y, k);
    lemma_pre_skip_ws(u, y, k);
    lemma_pre_match_unary_op(u, y, q);
    lemma_pre_primary(u, y, q);
    if let Some(op) = match_unary_op(y, q) {
        lemma_pre_unary(u, y, q + 1);
    }
}

#[verifier::spinoff_prover]
#[verifier::rlimit(30)]
pub proof fn lemma_pre_primary(u: Seq<char>, y: Seq<char>, k: int)
    requires
        0 <= k <= y.len(),
    ensures
        parse_primary(u + y, u.len() + k) == shift_by(parse_primary(y, k), u.len() as int),
    decreases y.len() - k, 0int,
{
    let q = skip_ws(y, k);
    lemma_pre(u, y);
    lemma_skip_ws(y, k);
    lemma_pre_skip_ws(u, y, k);
    if at(y, q, '(') {
        lemma_pre_binary(u, y, q + 1, 4);
        lemma_binary(y, q + 1, 4);
        if let Some((r, v)) = parse_binary(y, q + 1, 4) {
            lemma_skip_ws(y, r);
            lemma_pre_skip_ws(u, y, r);
        }
    } else {
        lemma_pre_value(u, y, q);
    }
}

} // verus!
