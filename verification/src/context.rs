//! A rule on `x + c`, where `c` starts with a binary operator, against the same rule on
//! `x`, at a position inside `x`: both answer the same, or the rule on `x` fails, or it
//! stops before a character that no enclosing rule of a looser level can take, or it
//! reaches the end of `x` at the operator's level or above.
use vstd::prelude::*;
use crate::grammar::{
    at, is_ws, skip_ws, lex_identifier, lex_digits, lex_integer, lex_signed_integer, float_end,
    lex_float, lex_signed_float, lex_string, parse_arg, parse_args_rest, parse_call_args,
    parse_index_value, parse_accessor_suffix, parse_accessor_rest, parse_accessor_chain,
    parse_function_call, parse_method_suffix, parse_method_rest, parse_method_call, parse_value,
    match_op, match_unary_op, parse_binary, parse_binary_rest, parse_unary, parse_primary,
    lemma_skip_ws,
};
use crate::laws::{
    lemma_identifier, lemma_arg, lemma_args_rest, lemma_accessor_suffix, lemma_method_suffix,
    lemma_binary, lemma_unary, lemma_signed_integer, lemma_string, lemma_accessor_chain,
    lemma_method_call, lemma_float,
};
use crate::prefix::{shift_by, lemma_pre_match_op};
use crate::parens::lemma_end;
use crate::chains::{word_end, lemma_tail_identifier, lemma_tail_digits, lemma_tail_string};
use crate::value::SpecValue;

verus! {

/// `c` starts with a binary operator of the given level.
pub open spec fn ctx_ok(c: Seq<char>, level: nat) -> bool {
    level <= 4 && match_op(c, 0, level) is Some
}

/// After position `e` of `x`, past whitespace, stands a character that is none of `)`, `,`,
/// `]` and starts no binary operator of a level above `lvl`.
pub open spec fn cblocked(x: Seq<char>, e: int, lvl: int) -> bool {
    let q = skip_ws(x, e);
    &&& q < x.len()
    &&& x[q] != ')'
    &&& x[q] != ','
    &&& x[q] != ']'
    &&& forall|l: nat| lvl < l <= 4 ==> #[trigger] match_op(x, q, l) is None
}

/// A rule on `x` that ended at `e` stopped for good, or only for want of more input at a
/// level no lower than the operator's.
pub open spec fn stops(x: Seq<char>, e: int, lvl: int, level: nat) -> bool {
    cblocked(x, e, lvl) || (lvl >= level && skip_ws(x, e) == x.len())
}

/// How a rule of level `lvl` answers on `x + c` (`rs`) and on `x` (`rt`), where `c` starts
/// with an operator of level `level`: the same, or `rt` fails, or `rt` stops.
pub open spec fn crel(
    x: Seq<char>,
    rs: Option<(int, SpecValue)>,
    rt: Option<(int, SpecValue)>,
    lvl: int,
    level: nat,
) -> bool {
    ||| rs == rt
    ||| rt is None
    ||| rt matches Some((e, _)) && stops(x, e, lvl, level)
}

/// The same as `crel`, for the repetitions, which always answer.
pub open spec fn crel_rest(
    x: Seq<char>,
    rs: (int, SpecValue),
    rt: (int, SpecValue),
    lvl: int,
    level: nat,
) -> bool {
    rs == rt || stops(x, rt.0, lvl, level)
}

/// `o` is an operator character: no token but an operator takes it.
pub open spec fn op_char(o: char) -> bool {
    o == '|' || o == '&' || o == '=' || o == '!' || o == '<' || o == '>' || o == '+' || o == '-'
        || o == '*' || o == '/' || o == '%'
}

pub proof fn lemma_ctx(x: Seq<char>, c: Seq<char>, level: nat)
    requires
        ctx_ok(c, level),
    ensures
        word_end(c),
        (x + c).len() == x.len() + c.len(),
        c.len() > 0,
        (x + c)[x.len() as int] == c[0],
        op_char(c[0]),
        forall|i: int| 0 <= i < x.len() ==> (x + c)[i] == #[trigger] x[i],
        forall|l: nat| l <= 4 && l != level ==> #[trigger] match_op(x + c, x.len() as int, l) is None,
        match_op(x + c, x.len() as int, level) == shift_by(match_op(c, 0, level), x.len() as int),
{
    let s = x + c;
    assert forall|l: nat| l <= 4 && l != level implies #[trigger] match_op(
        s,
        x.len() as int,
        l,
    ) is None by {
        lemma_pre_match_op(x, c, 0, l);
    }
    lemma_pre_match_op(x, c, 0, level);
}

pub proof fn lemma_ctx_skip_ws(x: Seq<char>, c: Seq<char>, level: nat, k: int)
    requires
        ctx_ok(c, level),
        0 <= k <= x.len(),
    ensures
        skip_ws(x + c, k) == skip_ws(x, k),
    decreases x.len() - k,
{
    lemma_ctx(x, c, level);
    if k < x.len() && is_ws(x[k]) {
        lemma_ctx_skip_ws(x, c, level, k + 1);
    }
}

pub proof fn lemma_ctx_integer(x: Seq<char>, c: Seq<char>, level: nat, k: int)
    requires
        ctx_ok(c, level),
        0 <= k <= x.len(),
    ensures
        lex_integer(x + c, k) == lex_integer(x, k),
{
    lemma_ctx(x, c, level);
    lemma_tail_digits(x, c, k);
    if let Some(e) = lex_digits(x, k) {
        assert((x + c).subrange(k, e) =~= x.subrange(k, e));
    }
}

pub proof fn lemma_ctx_signed_integer(x: Seq<char>, c: Seq<char>, level: nat, k: int)
    requires
        ctx_ok(c, level),
        0 <= k <= x.len(),
    ensures
        lex_signed_integer(x, k) is Some ==> lex_signed_integer(x + c, k) == lex_signed_integer(
            x,
            k,
        ),
        lex_signed_integer(x + c, k) is Some && lex_signed_integer(x, k) is None ==> k == x.len(),
{
    lemma_ctx(x, c, level);
    if at(x, k, '-') {
        lemma_tail_digits(x, c, k + 1);
        if let Some(e) = lex_digits(x, k + 1) {
            assert((x + c).subrange(k + 1, e) =~= x.subrange(k + 1, e));
        }
    } else {
        lemma_ctx_integer(x, c, level, k);
        if k < x.len() {
            assert(!at(x + c, k, '-'));
        }
    }
}

pub proof fn lemma_ctx_float_end(x: Seq<char>, c: Seq<char>, level: nat, k: int)
    requires
        ctx_ok(c, level),
        0 <= k <= x.len(),
    ensures
        float_end(x, k) is None ==> float_end(x + c, k) is None,
        float_end(x, k) matches Some(e) ==> k < e <= x.len() && (float_end(x + c, k) == Some(e)
            || (e < x.len() && (x[e] == 'e' || x[e] == 'E'))),
{
    lemma_ctx(x, c, level);
    lemma_tail_digits(x, c, k);
    if let Some(e1) = lex_digits(x, k) {
        if at(x, e1, '.') {
            lemma_tail_digits(x, c, e1 + 1);
            if let Some(e2) = lex_digits(x, e1 + 1) {
                crate::parens::lemma_wrap_exponent_end(x, e2);
                if at(x, e2, 'e') || at(x, e2, 'E') {
                    let f = if at(x, e2 + 1, '+') || at(x, e2 + 1, '-') {
                        e2 + 2
                    } else {
                        e2 + 1
                    };
                    if f <= x.len() {
                        lemma_tail_digits(x, c, f);
                    }
                }
            }
        }
    }
}

/// At `e`, `x` holds an exponent marker that no digits follow in `x`.
pub open spec fn exp_cut(x: Seq<char>, e: int) -> bool {
    0 <= e < x.len() && (x[e] == 'e' || x[e] == 'E')
}

pub proof fn lemma_ctx_float(x: Seq<char>, c: Seq<char>, level: nat, k: int)
    requires
        ctx_ok(c, level),
        0 <= k <= x.len(),
    ensures
        lex_float(x, k) is None ==> lex_float(x + c, k) is None,
        lex_float(x, k) matches Some((e, _)) ==> lex_float(x + c, k) == lex_float(x, k) || exp_cut(
            x,
            e,
        ),
{
    lemma_ctx(x, c, level);
    lemma_ctx_float_end(x, c, level, k);
    if let Some(e) = float_end(x, k) {
        if float_end(x + c, k) == Some(e) {
            assert((x + c).subrange(k, e) =~= x.subrange(k, e));
        }
    }
}

pub proof fn lemma_ctx_signed_float(x: Seq<char>, c: Seq<char>, level: nat, k: int)
    requires
        ctx_ok(c, level),
        0 <= k <= x.len(),
    ensures
        lex_signed_float(x, k) matches Some((e, _)) ==> lex_signed_float(x + c, k)
            == lex_signed_float(x, k) || exp_cut(x, e),
        lex_signed_float(x + c, k) is Some && lex_signed_float(x, k) is None ==> k == x.len(),
{
    lemma_ctx(x, c, level);
    let q = if at(x, k, '-') {
        k + 1
    } else {
        k
    };
    if k < x.len() {
        assert(at(x + c, k, '-') == at(x, k, '-'));
    }
    if q <= x.len() {
        lemma_ctx_float_end(x, c, level, q);
        if let Some(e) = float_end(x, q) {
            if float_end(x + c, q) == Some(e) {
                assert((x + c).subrange(k, e) =~= x.subrange(k, e));
            }
        }
    }
}

/// A binary operator rules out the operators of the other levels.
pub proof fn lemma_ops_exclusive(x: Seq<char>, q: int, level: nat)
    requires
        level <= 4,
        match_op(x, q, level) is Some,
    ensures
        forall|l: nat| l <= 4 && l != level ==> #[trigger] match_op(x, q, l) is None,
        0 <= q < x.len(),
        op_char(x[q]),
        match_op(x, q, level)->Some_0.0 <= x.len(),
{
}

pub proof fn lemma_ctx_match_op(x: Seq<char>, c: Seq<char>, level: nat, q: int, l: nat)
    requires
        ctx_ok(c, level),
        0 <= q <= x.len(),
        l <= 4,
    ensures
        ({
            let ms = match_op(x + c, q, l);
            let mx = match_op(x, q, l);
            ||| ms == mx
            ||| q == x.len() && l == level
            ||| mx is Some && mx->Some_0.0 == x.len()
            ||| mx is None && q == x.len() - 1 && op_char(x[q]) && (forall|l2: nat|
                #[trigger] match_op(x, q, l2) is None)
        }),
{
    lemma_ctx(x, c, level);
}

pub proof fn lemma_ctx_match_unary_op(x: Seq<char>, c: Seq<char>, level: nat, q: int)
    requires
        ctx_ok(c, level),
        0 <= q <= x.len(),
    ensures
        q < x.len() ==> match_unary_op(x + c, q) == match_unary_op(x, q),
{
    lemma_ctx(x, c, level);
}

/// Past whitespace after `e`, `x` holds a character that is none of `)`, `,`, `]` and
/// no operator character: it stops every rule.
pub proof fn lemma_cblocked(x: Seq<char>, e: int, lvl: int)
    requires
        0 <= e <= x.len(),
        skip_ws(x, e) < x.len(),
        !op_char(x[skip_ws(x, e)]),
        x[skip_ws(x, e)] != ')',
        x[skip_ws(x, e)] != ',',
        x[skip_ws(x, e)] != ']',
    ensures
        cblocked(x, e, lvl),
{
    let q = skip_ws(x, e);
    assert forall|l: nat| lvl < l <= 4 implies #[trigger] match_op(x, q, l) is None by {}
}

pub proof fn lemma_exp_cut(x: Seq<char>, e: int, lvl: int)
    requires
        exp_cut(x, e),
    ensures
        cblocked(x, e, lvl),
{
    assert(skip_ws(x, e) == e);
    lemma_cblocked(x, e, lvl);
}

/// No rule that builds a value matches at the end of the input.
pub proof fn lemma_end_fails(x: Seq<char>, l: nat)
    ensures
        parse_value(x, x.len() as int) is None,
        parse_primary(x, x.len() as int) is None,
        parse_unary(x, x.len() as int) is None,
        parse_binary(x, x.len() as int, l) is None,
    decreases l,
{
    let n = x.len() as int;
    assert(skip_ws(x, n) == n);
    assert(lex_identifier(x, n) is None);
    assert(parse_accessor_chain(x, n) is None);
    assert(parse_method_call(x, n) is None);
    assert(parse_function_call(x, n) is None);
    assert(lex_digits(x, n) is None);
    assert(float_end(x, n) is None);
    assert(parse_value(x, n) is None);
    assert(parse_primary(x, n) is None);
    assert(parse_unary(x, n) is None);
    if l > 0 {
        lemma_end_fails(x, (l - 1) as nat);
    }
}

pub proof fn lemma_ctx_arg(x: Seq<char>, c: Seq<char>, level: nat, k: int)
    requires
        ctx_ok(c, level),
        0 <= k <= x.len(),
    ensures
        parse_arg(x, k) matches Some((e, _)) ==> parse_arg(x + c, k) == parse_arg(x, k) || exp_cut(
            x,
            e,
        ),
        parse_arg(x, k) is None ==> parse_arg(x + c, k) is None || skip_ws(x, k) == x.len()
            || at(x, skip_ws(x, k), '"'),
{
    let q = skip_ws(x, k);
    lemma_ctx(x, c, level);
    lemma_skip_ws(x, k);
    lemma_ctx_skip_ws(x, c, level, k);
    lemma_ctx_signed_float(x, c, level, q);
    lemma_ctx_signed_integer(x, c, level, q);
    lemma_tail_string(x, c, q);
    if q < x.len() && x[q] != '"' {
        assert(lex_string(x, q) is None);
        assert(lex_string(x + c, q) is None);
    }
}

pub proof fn lemma_ctx_args_rest(x: Seq<char>, c: Seq<char>, level: nat, k: int, acc: Seq<SpecValue>)
    requires
        ctx_ok(c, level),
        0 <= k <= x.len(),
    ensures
        parse_args_rest(x + c, k, acc) == parse_args_rest(x, k, acc) || !at(
            x,
            skip_ws(x, parse_args_rest(x, k, acc).0),
            ')',
        ),
    decreases x.len() - k,
{
    let s = x + c;
    let q = skip_ws(x, k);
    lemma_ctx(x, c, level);
    lemma_skip_ws(x, k);
    lemma_ctx_skip_ws(x, c, level, k);
    if q < x.len() && x[q] == ',' {
        lemma_skip_ws(x, q + 1);
        lemma_ctx_arg(x, c, level, q + 1);
        lemma_arg(x, q + 1);
        lemma_arg(s, q + 1);
        match parse_arg(x, q + 1) {
            Some((r, a)) => {
                if parse_arg(s, q + 1) == parse_arg(x, q + 1) {
                    lemma_ctx_args_rest(x, c, level, r, acc.push(a));
                } else {
                    assert(skip_ws(x, r) == r);
                    assert(parse_args_rest(x, r, acc.push(a)) == (r, acc.push(a)));
                }
            },
            None => {},
        }
    }
}

pub proof fn lemma_ctx_call_args(x: Seq<char>, c: Seq<char>, level: nat, k: int)
    requires
        ctx_ok(c, level),
        0 <= k <= x.len(),
    ensures
        parse_call_args(x, k) is Some ==> parse_call_args(x + c, k) == parse_call_args(x, k),
{
    let s = x + c;
    lemma_ctx(x, c, level);
    lemma_ctx_arg(x, c, level, k);
    lemma_arg(x, k);
    lemma_arg(s, k);
    lemma_skip_ws(x, k);
    lemma_ctx_skip_ws(x, c, level, k);
    if parse_call_args(x, k) is Some {
        match parse_arg(x, k) {
            Some((r, a)) => {
                lemma_ctx_args_rest(x, c, level, r, seq![a]);
                lemma_args_rest(x, r, seq![a]);
                let q = parse_args_rest(x, r, seq![a]).0;
                lemma_skip_ws(x, q);
                lemma_ctx_skip_ws(x, c, level, q);
                if parse_arg(s, k) != parse_arg(x, k) {
                    assert(skip_ws(x, r) == r);
                    assert(parse_args_rest(x, r, seq![a]) == (r, seq![a]));
                }
            },
            None => {
                assert(parse_arg(s, k) is None);
            },
        }
    }
}

pub proof fn lemma_ctx_index_value(x: Seq<char>, c: Seq<char>, level: nat, k: int)
    requires
        ctx_ok(c, level),
        0 <= k <= x.len(),
    ensures
        parse_index_value(x, k) is Some ==> parse_index_value(x + c, k) == parse_index_value(x, k),
{
    lemma_ctx_signed_integer(x, c, level, k);
    lemma_tail_string(x, c, k);
}

pub proof fn lemma_ctx_accessor_suffix(x: Seq<char>, c: Seq<char>, level: nat, k: int)
    requires
        ctx_ok(c, level),
        0 <= k <= x.len(),
    ensures
        parse_accessor_suffix(x, k) is Some ==> parse_accessor_suffix(x + c, k)
            == parse_accessor_suffix(x, k),
        parse_accessor_suffix(x, k) is None && parse_accessor_suffix(x + c, k) is Some ==> (at(
            x,
            skip_ws(x, k),
            '.',
        ) || at(x, skip_ws(x, k), '[')),
{
    let s = x + c;
    let q = skip_ws(x, k);
    lemma_ctx(x, c, level);
    lemma_skip_ws(x, k);
    lemma_ctx_skip_ws(x, c, level, k);
    if at(x, q, '.') {
        lemma_skip_ws(x, q + 1);
        lemma_ctx_skip_ws(x, c, level, q + 1);
        lemma_tail_identifier(x, c, skip_ws(x, q + 1));
    } else if at(x, q, '[') {
        let q1 = skip_ws(x, q + 1);
        lemma_skip_ws(x, q + 1);
        lemma_ctx_skip_ws(x, c, level, q + 1);
        lemma_ctx_index_value(x, c, level, q1);
        lemma_signed_integer(x, q1);
        lemma_string(x, q1);
        if let Some((r, key)) = parse_index_value(x, q1) {
            lemma_skip_ws(x, r);
            lemma_ctx_skip_ws(x, c, level, r);
        }
    }
}

/// Past whitespace after `e`, `x` holds a `:`, `.` or `[` that the rule on `x` could not
/// take further.
pub open spec fn chain_cut(x: Seq<char>, e: int) -> bool {
    at(x, skip_ws(x, e), ':') || suffix_cut(x, e)
}

/// Past whitespace after `e`, `x` holds a `.` or `[` that the rule on `x` could not take
/// further.
pub open spec fn suffix_cut(x: Seq<char>, e: int) -> bool {
    at(x, skip_ws(x, e), '.') || at(x, skip_ws(x, e), '[')
}

pub proof fn lemma_chain_cut(x: Seq<char>, e: int, lvl: int)
    requires
        0 <= e <= x.len(),
        chain_cut(x, e),
    ensures
        cblocked(x, e, lvl),
{
    lemma_cblocked(x, e, lvl);
}

pub proof fn lemma_ctx_accessor_rest(
    x: Seq<char>,
    c: Seq<char>,
    level: nat,
    k: int,
    base: SpecValue,
)
    requires
        ctx_ok(c, level),
        0 <= k <= x.len(),
    ensures
        parse_accessor_rest(x + c, k, base) == parse_accessor_rest(x, k, base) || suffix_cut(
            x,
            parse_accessor_rest(x, k, base).0,
        ),
    decreases x.len() - k,
{
    lemma_ctx_accessor_suffix(x, c, level, k);
    lemma_accessor_suffix(x, k);
    if let Some((r, key)) = parse_accessor_suffix(x, k) {
        lemma_ctx_accessor_rest(x, c, level, r, SpecValue::Accessor(Box::new(base), Box::new(key)));
    }
}

pub proof fn lemma_ctx_accessor_chain(x: Seq<char>, c: Seq<char>, level: nat, k: int)
    requires
        ctx_ok(c, level),
        0 <= k <= x.len(),
    ensures
        parse_accessor_chain(x, k) is None <==> parse_accessor_chain(x + c, k) is None,
        parse_accessor_chain(x, k) matches Some((e, _)) ==> parse_accessor_chain(x + c, k)
            == parse_accessor_chain(x, k) || suffix_cut(x, e),
{
    lemma_tail_identifier(x, c, k);
    lemma_identifier(x, k);
    if let Some((q, name)) = lex_identifier(x, k) {
        lemma_ctx_accessor_rest(x, c, level, q, SpecValue::Identifier(name));
    }
}

pub proof fn lemma_ctx_function_call(x: Seq<char>, c: Seq<char>, level: nat, k: int)
    requires
        ctx_ok(c, level),
        0 <= k <= x.len(),
    ensures
        parse_function_call(x, k) is Some ==> parse_function_call(x + c, k) == parse_function_call(
            x,
            k,
        ),
        parse_function_call(x, k) is None && parse_function_call(x + c, k) is Some ==> lex_identifier(
            x,
            k,
        ) is Some && at(x, skip_ws(x, lex_identifier(x, k)->Some_0.0), '('),
{
    let s = x + c;
    lemma_ctx(x, c, level);
    lemma_tail_identifier(x, c, k);
    lemma_identifier(x, k);
    if let Some((q, name)) = lex_identifier(x, k) {
        lemma_skip_ws(x, q);
        lemma_ctx_skip_ws(x, c, level, q);
        let u = skip_ws(x, q);
        if at(x, u, '(') {
            lemma_ctx_call_args(x, c, level, u + 1);
        }
    }
}

pub proof fn lemma_ctx_method_suffix(x: Seq<char>, c: Seq<char>, level: nat, k: int)
    requires
        ctx_ok(c, level),
        0 <= k <= x.len(),
    ensures
        parse_method_suffix(x, k) is Some ==> parse_method_suffix(x + c, k) == parse_method_suffix(
            x,
            k,
        ),
        parse_method_suffix(x, k) is None && parse_method_suffix(x + c, k) is Some ==> at(
            x,
            skip_ws(x, k),
            ':',
        ),
{
    let s = x + c;
    let q = skip_ws(x, k);
    lemma_ctx(x, c, level);
    lemma_skip_ws(x, k);
    lemma_ctx_skip_ws(x, c, level, k);
    if at(x, q, ':') {
        lemma_skip_ws(x, q + 1);
        lemma_ctx_skip_ws(x, c, level, q + 1);
        lemma_tail_identifier(x, c, skip_ws(x, q + 1));
        lemma_identifier(x, skip_ws(x, q + 1));
        if let Some((r, name)) = lex_identifier(x, skip_ws(x, q + 1)) {
            lemma_skip_ws(x, r);
            lemma_ctx_skip_ws(x, c, level, r);
            let u = skip_ws(x, r);
            if at(x, u, '(') {
                lemma_ctx_call_args(x, c, level, u + 1);
            }
        }
    }
}

pub proof fn lemma_ctx_method_rest(x: Seq<char>, c: Seq<char>, level: nat, k: int, recv: SpecValue)
    requires
        ctx_ok(c, level),
        0 <= k <= x.len(),
    ensures
        parse_method_rest(x + c, k, recv) == parse_method_rest(x, k, recv) || chain_cut(
            x,
            parse_method_rest(x, k, recv).0,
        ),
    decreases x.len() - k,
{
    lemma_ctx_method_suffix(x, c, level, k);
    lemma_method_suffix(x, k);
    if let Some((r, name, args)) = parse_method_suffix(x, k) {
        lemma_ctx_method_rest(x, c, level, r, SpecValue::MethodCall(Box::new(recv), name, args));
    }
}

pub proof fn lemma_ctx_method_call(x: Seq<char>, c: Seq<char>, level: nat, k: int)
    requires
        ctx_ok(c, level),
        0 <= k <= x.len(),
    ensures
        parse_method_call(x, k) matches Some((e, _)) ==> parse_method_call(x + c, k)
            == parse_method_call(x, k) || chain_cut(x, e),
        parse_method_call(x, k) is None && parse_method_call(x + c, k) is Some ==> (
        parse_accessor_chain(x, k) is Some && chain_cut(x, parse_accessor_chain(x, k)->Some_0.0)),
{
    let s = x + c;
    lemma_ctx_accessor_chain(x, c, level, k);
    lemma_accessor_chain(x, k);
    if let Some((q, base)) = parse_accessor_chain(x, k) {
        lemma_ctx_method_suffix(x, c, level, q);
        lemma_method_suffix(x, q);
        if parse_accessor_chain(s, k) == parse_accessor_chain(x, k) {
            if let Some((r, name, args)) = parse_method_suffix(x, q) {
                lemma_ctx_method_rest(
                    x,
                    c,
                    level,
                    r,
                    SpecValue::MethodCall(Box::new(base), name, args),
                );
            }
        } else {
            assert(parse_method_suffix(x, q) is None);
        }
    }
}

/// Where a method call on `x + c` matches but not on `x`, the value on `x` is the
/// accessor chain, cut before a `:`, `.` or `[`.
proof fn lemma_value_method_cut(x: Seq<char>, q: int)
    requires
        0 <= q < x.len(),
        parse_method_call(x, q) is None,
        parse_accessor_chain(x, q) is Some,
        chain_cut(x, parse_accessor_chain(x, q)->Some_0.0),
    ensures
        parse_function_call(x, q) is None,
{
    let (idend, name) = lex_identifier(x, q)->Some_0;
    lemma_identifier(x, q);
    lemma_skip_ws(x, idend);
    let q2 = parse_accessor_chain(x, q)->Some_0.0;
    lemma_skip_ws(x, q2);
    assert(parse_accessor_chain(x, q) == Some(
        parse_accessor_rest(x, idend, SpecValue::Identifier(name)),
    ));
    if parse_accessor_suffix(x, idend) is None {
        assert(q2 == idend);
    }
}

/// Where a function call on `x + c` matches but not on `x`, the value on `x` is the bare
/// identifier, before a `(`.
proof fn lemma_value_call_cut(x: Seq<char>, q: int)
    requires
        0 <= q <= x.len(),
        lex_identifier(x, q) is Some,
        at(x, skip_ws(x, lex_identifier(x, q)->Some_0.0), '('),
    ensures
        parse_accessor_chain(x, q) == Some(
            (lex_identifier(x, q)->Some_0.0, SpecValue::Identifier(lex_identifier(x, q)->Some_0.1)),
        ),
        cblocked(x, lex_identifier(x, q)->Some_0.0, -1),
{
    let (idend, name) = lex_identifier(x, q)->Some_0;
    lemma_identifier(x, q);
    lemma_skip_ws(x, idend);
    assert(parse_accessor_suffix(x, idend) is None);
    lemma_cblocked(x, idend, -1);
}

pub proof fn lemma_ctx_value(x: Seq<char>, c: Seq<char>, level: nat, k: int)
    requires
        ctx_ok(c, level),
        0 <= k <= x.len(),
    ensures
        crel(x, parse_value(x + c, k), parse_value(x, k), -1, level),
{
    let s = x + c;
    let q = skip_ws(x, k);
    lemma_ctx(x, c, level);
    lemma_skip_ws(x, k);
    lemma_ctx_skip_ws(x, c, level, k);
    if q == x.len() {
        lemma_end_fails(x, 0);
    } else {
        lemma_ctx_method_call(x, c, level, q);
        lemma_ctx_function_call(x, c, level, q);
        lemma_ctx_accessor_chain(x, c, level, q);
        lemma_ctx_float(x, c, level, q);
        lemma_ctx_integer(x, c, level, q);
        lemma_tail_string(x, c, q);
        lemma_method_call(x, q);
        lemma_accessor_chain(x, q);
        lemma_float(x, q);
        let mx = parse_method_call(x, q);
        let ms = parse_method_call(s, q);
        let fx = parse_function_call(x, q);
        let fs = parse_function_call(s, q);
        let ax = parse_accessor_chain(x, q);
        let fl = lex_float(x, q);
        if mx is Some {
            if ms != mx {
                lemma_chain_cut(x, mx->Some_0.0, -1);
            }
        } else if ms is Some {
            lemma_value_method_cut(x, q);
            lemma_chain_cut(x, ax->Some_0.0, -1);
        } else if fx is Some {
        } else if fs is Some {
            lemma_value_call_cut(x, q);
        } else if ax is Some {
            if parse_accessor_chain(s, q) != ax {
                lemma_chain_cut(x, ax->Some_0.0, -1);
            }
        } else if fl is Some {
            if lex_float(s, q) != fl {
                lemma_exp_cut(x, fl->Some_0.0, -1);
            }
        }
    }
}

/// A rule of level `lvl - 1` that stops leaves nothing for the level `lvl` above it.
pub proof fn lemma_stops_up(x: Seq<char>, q: int, lvl: nat, level: nat, left: SpecValue)
    requires
        0 <= q <= x.len(),
        lvl <= 4,
        stops(x, q, lvl - 1, level),
    ensures
        parse_binary_rest(x, q, lvl, left) == (q, left),
        stops(x, q, lvl as int, level),
{
    let t = skip_ws(x, q);
    lemma_skip_ws(x, q);
    if cblocked(x, q, lvl - 1) {
        assert(match_op(x, t, lvl) is None);
    } else {
        lemma_end(x);
    }
}

pub proof fn lemma_ctx_binary(x: Seq<char>, c: Seq<char>, level: nat, k: int, lvl: nat)
    requires
        ctx_ok(c, level),
        0 <= k <= x.len(),
        lvl <= 4,
    ensures
        crel(x, parse_binary(x + c, k, lvl), parse_binary(x, k, lvl), lvl as int, level),
    decreases x.len() - k, 2 * lvl + 3,
{
    let s = x + c;
    lemma_ctx(x, c, level);
    let first_x = if lvl == 0 {
        lemma_ctx_unary(x, c, level, k);
        lemma_unary(x, k);
        parse_unary(x, k)
    } else {
        lemma_ctx_binary(x, c, level, k, (lvl - 1) as nat);
        lemma_binary(x, k, (lvl - 1) as nat);
        parse_binary(x, k, (lvl - 1) as nat)
    };
    let first_s = if lvl == 0 {
        parse_unary(s, k)
    } else {
        parse_binary(s, k, (lvl - 1) as nat)
    };
    assert(crel(x, first_s, first_x, lvl - 1, level));
    if first_s == first_x {
        if let Some((q, left)) = first_x {
            lemma_ctx_binary_rest(x, c, level, q, lvl, left);
        }
    } else if let Some((q, left)) = first_x {
        lemma_stops_up(x, q, lvl, level, left);
    }
}

pub proof fn lemma_ctx_binary_rest(
    x: Seq<char>,
    c: Seq<char>,
    level: nat,
    k: int,
    lvl: nat,
    left: SpecValue,
)
    requires
        ctx_ok(c, level),
        0 <= k <= x.len(),
        lvl <= 4,
    ensures
        crel_rest(
            x,
            parse_binary_rest(x + c, k, lvl, left),
            parse_binary_rest(x, k, lvl, left),
            lvl as int,
            level,
        ),
    decreases x.len() - k, 2 * lvl + 2,
{
    let s = x + c;
    let q = skip_ws(x, k);
    lemma_ctx(x, c, level);
    lemma_end(x);
    lemma_skip_ws(x, k);
    lemma_ctx_skip_ws(x, c, level, k);
    lemma_ctx_match_op(x, c, level, q, lvl);
    if q < x.len() {
        match match_op(x, q, lvl) {
            Some((r, op)) => {
                lemma_ops_exclusive(x, q, lvl);
                if match_op(s, q, lvl) == match_op(x, q, lvl) {
                    let operand_x = if lvl == 0 {
                        lemma_ctx_unary(x, c, level, r);
                        lemma_unary(x, r);
                        parse_unary(x, r)
                    } else {
                        lemma_ctx_binary(x, c, level, r, (lvl - 1) as nat);
                        lemma_binary(x, r, (lvl - 1) as nat);
                        parse_binary(x, r, (lvl - 1) as nat)
                    };
                    let operand_s = if lvl == 0 {
                        parse_unary(s, r)
                    } else {
                        parse_binary(s, r, (lvl - 1) as nat)
                    };
                    assert(crel(x, operand_s, operand_x, lvl - 1, level));
                    if operand_s == operand_x {
                        if let Some((t, right)) = operand_x {
                            lemma_ctx_binary_rest(
                                x,
                                c,
                                level,
                                t,
                                lvl,
                                SpecValue::BinaryOp(op, Box::new(left), Box::new(right)),
                            );
                        }
                    } else if let Some((t, right)) = operand_x {
                        lemma_stops_up(
                            x,
                            t,
                            lvl,
                            level,
                            SpecValue::BinaryOp(op, Box::new(left), Box::new(right)),
                        );
                    } else {
                        assert(cblocked(x, k, lvl as int));
                    }
                } else {
                    lemma_end_fails(x, (lvl - 1) as nat);
                    assert(cblocked(x, k, lvl as int));
                }
            },
            None => {
                if match_op(s, q, lvl) is Some {
                    assert(cblocked(x, k, lvl as int));
                }
            },
        }
    }
}

pub proof fn lemma_ctx_unary(x: Seq<char>, c: Seq<char>, level: nat, k: int)
    requires
        ctx_ok(c, level),
        0 <= k <= x.len(),
    ensures
        crel(x, parse_unary(x + c, k), parse_unary(x, k), -1, level),
    decreases x.len() - k, 1int,
{
    let s = x + c;
    let q = skip_ws(x, k);
    lemma_ctx(x, c, level);
    lemma_skip_ws(x, k);
    lemma_ctx_skip_ws(x, c, level, k);
    if q == x.len() {
        lemma_end_fails(x, 0);
    } else {
        lemma_ctx_match_unary_op(x, c, level, q);
        lemma_ctx_primary(x, c, level, q);
        if let Some(op) = match_unary_op(x, q) {
            lemma_ctx_unary(x, c, level, q + 1);
            // no value starts with an operator character
            assert(skip_ws(x, q) == q);
            assert(parse_primary(x, q) is None);
        }
    }
}

pub proof fn lemma_ctx_primary(x: Seq<char>, c: Seq<char>, level: nat, k: int)
    requires
        ctx_ok(c, level),
        0 <= k <= x.len(),
    ensures
        crel(x, parse_primary(x + c, k), parse_primary(x, k), -1, level),
    decreases x.len() - k, 0int,
{
    let s = x + c;
    let q = skip_ws(x, k);
    lemma_ctx(x, c, level);
    lemma_skip_ws(x, k);
    lemma_ctx_skip_ws(x, c, level, k);
    if q == x.len() {
        lemma_end_fails(x, 0);
    } else if x[q] == '(' {
        lemma_ctx_binary(x, c, level, q + 1, 4);
        lemma_binary(x, q + 1, 4);
        if let Some((r, v)) = parse_binary(x, q + 1, 4) {
            lemma_skip_ws(x, r);
            lemma_ctx_skip_ws(x, c, level, r);
        }
    } else {
        lemma_ctx_value(x, c, level, q);
    }
}

} // verus!
