//! How accessor and method chains grow: a suffix written after a whole accessor chain, or
//! a method call written after a whole receiver, wraps what came before. So
//! `user.profile.email` is `(user.profile).email`, and `a:f():g()` calls `g` on `a:f()`.
//!
//! The lemmas compare a rule on `x + c` with the same rule on `x`, where `c` starts with a
//! character that cannot continue a word: a suffix that matches on `x` matches the same
//! on `x + c`.
use vstd::prelude::*;
use crate::grammar::{
    at, is_ws, is_digit, is_ident_char, is_ident_start, skip_ws, scan_digits, scan_ident,
    lex_identifier, lex_digits, lex_signed_integer, float_end, lex_signed_float, string_close,
    lex_string, parse_arg, parse_args_rest, parse_call_args, parse_index_value,
    parse_accessor_suffix, parse_accessor_rest, parse_accessor_chain, parse_function_call,
    parse_method_suffix, parse_method_rest, parse_method_call, parse_value, match_unary_op,
    parse_binary, parse_binary_rest, parse_unary, parse_primary, lemma_skip_ws, lemma_scan_digits,
    lemma_scan_ident, spec_parse, ParseError,
};
use crate::laws::{
    lemma_identifier, lemma_arg, lemma_args_rest, lemma_accessor_suffix, lemma_method_suffix,
    lemma_string_close, lemma_signed_integer, lemma_string, lemma_accessor_rest, lemma_method_rest,
};
use crate::context::exp_cut;
use crate::prefix::{lemma_pre_skip_ws, lemma_pre_accessor_suffix, lemma_pre_method_suffix};
use crate::parens::lemma_end;
use crate::value::SpecValue;

verus! {

/// `c` starts with a character that continues no identifier and no number.
pub open spec fn word_end(c: Seq<char>) -> bool {
    c.len() > 0 && !is_ident_char(c[0])
}

pub proof fn lemma_tail(x: Seq<char>, c: Seq<char>)
    requires
        word_end(c),
    ensures
        (x + c).len() == x.len() + c.len(),
        (x + c)[x.len() as int] == c[0],
        !is_ident_char((x + c)[x.len() as int]),
        !is_digit((x + c)[x.len() as int]),
        forall|i: int| 0 <= i < x.len() ==> (x + c)[i] == #[trigger] x[i],
{
}

pub proof fn lemma_tail_skip_ws(x: Seq<char>, c: Seq<char>, k: int)
    requires
        word_end(c),
        0 <= k <= x.len(),
    ensures
        skip_ws(x, k) < x.len() ==> skip_ws(x + c, k) == skip_ws(x, k),
    decreases x.len() - k,
{
    lemma_tail(x, c);
    if k < x.len() && is_ws(x[k]) {
        lemma_tail_skip_ws(x, c, k + 1);
    }
}

pub proof fn lemma_tail_scan_digits(x: Seq<char>, c: Seq<char>, k: int)
    requires
        word_end(c),
        0 <= k <= x.len(),
    ensures
        scan_digits(x + c, k) == scan_digits(x, k),
    decreases x.len() - k,
{
    lemma_tail(x, c);
    if k < x.len() && is_digit(x[k]) {
        lemma_tail_scan_digits(x, c, k + 1);
    }
}

pub proof fn lemma_tail_scan_ident(x: Seq<char>, c: Seq<char>, k: int)
    requires
        word_end(c),
        0 <= k <= x.len(),
    ensures
        scan_ident(x + c, k) == scan_ident(x, k),
    decreases x.len() - k,
{
    lemma_tail(x, c);
    if k < x.len() && is_ident_char(x[k]) {
        lemma_tail_scan_ident(x, c, k + 1);
    }
}

pub proof fn lemma_tail_identifier(x: Seq<char>, c: Seq<char>, k: int)
    requires
        word_end(c),
        0 <= k <= x.len(),
    ensures
        lex_identifier(x + c, k) == lex_identifier(x, k),
{
    lemma_tail(x, c);
    if k < x.len() && is_ident_start(x[k]) {
        lemma_tail_scan_ident(x, c, k + 1);
        lemma_scan_ident(x, k + 1);
        let e = scan_ident(x, k + 1);
        assert((x + c).subrange(k, e) =~= x.subrange(k, e));
    }
}

pub proof fn lemma_tail_digits(x: Seq<char>, c: Seq<char>, k: int)
    requires
        word_end(c),
        0 <= k <= x.len(),
    ensures
        lex_digits(x + c, k) == lex_digits(x, k),
        lex_digits(x, k) matches Some(e) ==> k < e <= x.len(),
{
    lemma_tail(x, c);
    if k < x.len() && is_digit(x[k]) {
        lemma_tail_scan_digits(x, c, k + 1);
        lemma_scan_digits(x, k + 1);
    }
}

pub proof fn lemma_tail_signed_integer(x: Seq<char>, c: Seq<char>, k: int)
    requires
        word_end(c),
        0 <= k <= x.len(),
    ensures
        lex_signed_integer(x, k) is Some ==> lex_signed_integer(x + c, k) == lex_signed_integer(
            x,
            k,
        ),
{
    lemma_tail(x, c);
    if at(x, k, '-') {
        lemma_tail_digits(x, c, k + 1);
        if let Some(e) = lex_digits(x, k + 1) {
            assert((x + c).subrange(k + 1, e) =~= x.subrange(k + 1, e));
        }
    } else if k < x.len() {
        lemma_tail_digits(x, c, k);
        if let Some(e) = lex_digits(x, k) {
            assert((x + c).subrange(k, e) =~= x.subrange(k, e));
        }
    }
}

pub proof fn lemma_tail_string_close(x: Seq<char>, c: Seq<char>, k: int)
    requires
        word_end(c),
        0 <= k <= x.len(),
    ensures
        string_close(x, k) is Some ==> string_close(x + c, k) == string_close(x, k),
    decreases x.len() - k,
{
    lemma_tail(x, c);
    if k < x.len() && x[k] != '"' {
        if x[k] == '\\' {
            if k + 1 < x.len() {
                lemma_tail_string_close(x, c, k + 2);
            }
        } else {
            lemma_tail_string_close(x, c, k + 1);
        }
    }
}

pub proof fn lemma_tail_string(x: Seq<char>, c: Seq<char>, k: int)
    requires
        word_end(c),
        0 <= k <= x.len(),
    ensures
        lex_string(x, k) is Some ==> lex_string(x + c, k) == lex_string(x, k),
{
    lemma_tail(x, c);
    if at(x, k, '"') {
        lemma_tail_string_close(x, c, k + 1);
        lemma_string_close(x, k + 1);
        if let Some(cl) = string_close(x, k + 1) {
            assert((x + c).subrange(k + 1, cl) =~= x.subrange(k + 1, cl));
        }
    }
}

pub proof fn lemma_tail_float_end(x: Seq<char>, c: Seq<char>, k: int)
    requires
        word_end(c),
        0 <= k <= x.len(),
    ensures
        float_end(x, k) matches Some(e) ==> k < e <= x.len() && (float_end(x + c, k) == Some(e)
            || exp_cut(x, e)),
{
    lemma_tail(x, c);
    lemma_tail_digits(x, c, k);
    if let Some(e1) = lex_digits(x, k) {
        if at(x, e1, '.') {
            lemma_tail_digits(x, c, e1 + 1);
            if let Some(e2) = lex_digits(x, e1 + 1) {
                crate::parens::lemma_wrap_exponent_end(x, e2);
                if at(x, e2, 'e') || at(x, e2, 'E') {
                    let f = if at(x, e2 + 1, '+') || at(x, e2 + 1, '-') {
                        e2 + 2
                    } else {
                        e2 + 1
                    };
                    if f <= x.len() {
                        lemma_tail_digits(x, c, f);
                    }
                }
            }
        }
    }
}

pub proof fn lemma_tail_signed_float(x: Seq<char>, c: Seq<char>, k: int)
    requires
        word_end(c),
        0 <= k <= x.len(),
    ensures
        lex_signed_float(x, k) matches Some((e, _)) ==> lex_signed_float(x + c, k)
            == lex_signed_float(x, k) || exp_cut(x, e),
{
    lemma_tail(x, c);
    let q = if at(x, k, '-') {
        k + 1
    } else {
        k
    };
    if k < x.len() {
        assert(at(x + c, k, '-') == at(x, k, '-'));
    }
    if q <= x.len() {
        lemma_tail_float_end(x, c, q);
        if let Some(e) = float_end(x, q) {
            if float_end(x + c, q) == Some(e) {
                assert((x + c).subrange(k, e) =~= x.subrange(k, e));
            }
        }
    }
}

/// Past whitespace after `e`, `x` holds neither `,` nor `)`: no argument list goes on or
/// ends there.
pub open spec fn arg_cut(x: Seq<char>, e: int) -> bool {
    !at(x, skip_ws(x, e), ',') && !at(x, skip_ws(x, e), ')')
}

pub proof fn lemma_tail_arg(x: Seq<char>, c: Seq<char>, k: int)
    requires
        word_end(c),
        0 <= k <= x.len(),
    ensures
        parse_arg(x, k) matches Some((e, _)) ==> parse_arg(x + c, k) == parse_arg(x, k) || arg_cut(
            x,
            e,
        ),
        parse_arg(x, k) is None && at(x, skip_ws(x, k), ')') ==> parse_arg(x + c, k) is None,
{
    let s = x + c;
    let q = skip_ws(x, k);
    lemma_tail(x, c);
    lemma_skip_ws(x, k);
    lemma_tail_skip_ws(x, c, k);
    if q < x.len() {
        lemma_tail_signed_float(x, c, q);
        lemma_tail_signed_integer(x, c, q);
        lemma_tail_string(x, c, q);
        crate::laws::lemma_signed_float(x, q);
        lemma_signed_integer(x, q);
        let sf = lex_signed_float(x, q);
        if let Some((e, _)) = sf {
            if lex_signed_float(s, q) != sf {
                assert(skip_ws(x, e) == e);
            }
        } else if lex_signed_float(s, q) is Some {
            // the float reads on past the end of `x`; on `x` an integer ends there
            let q1 = if at(x, q, '-') {
                q + 1
            } else {
                q
            };
            lemma_tail_digits(x, c, q1);
            if let Some(e1) = lex_digits(x, q1) {
                if e1 < x.len() {
                    lemma_tail_digits(x, c, e1 + 1);
                    lemma_skip_ws(x, e1);
                    assert(skip_ws(x, e1) == e1);
                } else {
                    lemma_end(x);
                }
            }
        }
    } else {
        lemma_end(x);
    }
}

pub proof fn lemma_tail_args_rest(x: Seq<char>, c: Seq<char>, k: int, acc: Seq<SpecValue>)
    requires
        word_end(c),
        0 <= k <= x.len(),
    ensures
        parse_args_rest(x + c, k, acc) == parse_args_rest(x, k, acc) || !at(
            x,
            skip_ws(x, parse_args_rest(x, k, acc).0),
            ')',
        ),
    decreases x.len() - k,
{
    let s = x + c;
    let q = skip_ws(x, k);
    lemma_tail(x, c);
    lemma_skip_ws(x, k);
    lemma_tail_skip_ws(x, c, k);
    if q < x.len() && x[q] == ',' {
        lemma_skip_ws(x, q + 1);
        lemma_tail_arg(x, c, q + 1);
        lemma_arg(x, q + 1);
        match parse_arg(x, q + 1) {
            Some((r, a)) => {
                if parse_arg(s, q + 1) == parse_arg(x, q + 1) {
                    lemma_tail_args_rest(x, c, r, acc.push(a));
                } else {
                    assert(parse_args_rest(x, r, acc.push(a)) == (r, acc.push(a)));
                }
            },
            None => {},
        }
    }
}

pub proof fn lemma_tail_call_args(x: Seq<char>, c: Seq<char>, k: int)
    requires
        word_end(c),
        0 <= k <= x.len(),
    ensures
        parse_call_args(x, k) is Some ==> parse_call_args(x + c, k) == parse_call_args(x, k),
{
    let s = x + c;
    lemma_tail(x, c);
    lemma_tail_arg(x, c, k);
    lemma_arg(x, k);
    lemma_skip_ws(x, k);
    lemma_tail_skip_ws(x, c, k);
    if parse_call_args(x, k) is Some {
        match parse_arg(x, k) {
            Some((r, a)) => {
                lemma_tail_args_rest(x, c, r, seq![a]);
                lemma_args_rest(x, r, seq![a]);
                let q = parse_args_rest(x, r, seq![a]).0;
                lemma_skip_ws(x, q);
                lemma_tail_skip_ws(x, c, q);
                if parse_arg(s, k) != parse_arg(x, k) {
                    assert(parse_args_rest(x, r, seq![a]) == (r, seq![a]));
                }
            },
            None => {},
        }
    }
}

pub proof fn lemma_tail_index_value(x: Seq<char>, c: Seq<char>, k: int)
    requires
        word_end(c),
        0 <= k <= x.len(),
    ensures
        parse_index_value(x, k) is Some ==> parse_index_value(x + c, k) == parse_index_value(x, k),
{
    lemma_tail_signed_integer(x, c, k);
    lemma_tail_string(x, c, k);
}

pub proof fn lemma_tail_accessor_suffix(x: Seq<char>, c: Seq<char>, k: int)
    requires
        word_end(c),
        0 <= k <= x.len(),
    ensures
        parse_accessor_suffix(x, k) is Some ==> parse_accessor_suffix(x + c, k)
            == parse_accessor_suffix(x, k),
{
    let q = skip_ws(x, k);
    lemma_tail(x, c);
    lemma_skip_ws(x, k);
    lemma_tail_skip_ws(x, c, k);
    if at(x, q, '.') {
        let q1 = skip_ws(x, q + 1);
        lemma_skip_ws(x, q + 1);
        lemma_tail_skip_ws(x, c, q + 1);
        lemma_tail_identifier(x, c, q1);
    } else if at(x, q, '[') {
        let q1 = skip_ws(x, q + 1);
        lemma_skip_ws(x, q + 1);
        lemma_tail_skip_ws(x, c, q + 1);
        lemma_tail_index_value(x, c, q1);
        lemma_signed_integer(x, q1);
        lemma_string(x, q1);
        if let Some((r, key)) = parse_index_value(x, q1) {
            lemma_skip_ws(x, r);
            lemma_tail_skip_ws(x, c, r);
        }
    }
}

pub proof fn lemma_tail_method_suffix(x: Seq<char>, c: Seq<char>, k: int)
    requires
        word_end(c),
        0 <= k <= x.len(),
    ensures
        parse_method_suffix(x, k) is Some ==> parse_method_suffix(x + c, k) == parse_method_suffix(
            x,
            k,
        ),
{
    let q = skip_ws(x, k);
    lemma_tail(x, c);
    lemma_skip_ws(x, k);
    lemma_tail_skip_ws(x, c, k);
    if at(x, q, ':') {
        let q1 = skip_ws(x, q + 1);
        lemma_skip_ws(x, q + 1);
        lemma_tail_skip_ws(x, c, q + 1);
        lemma_tail_identifier(x, c, q1);
        lemma_identifier(x, q1);
        if let Some((r, name)) = lex_identifier(x, q1) {
            lemma_skip_ws(x, r);
            lemma_tail_skip_ws(x, c, r);
            let u = skip_ws(x, r);
            if at(x, u, '(') {
                lemma_tail_call_args(x, c, u + 1);
            }
        }
    }
}

/// Where the accessor suffixes on `x` run to its end, on `x + c` they pass through the
/// same steps and go on from there.
pub proof fn lemma_tail_accessor_rest_whole(x: Seq<char>, c: Seq<char>, k: int, base: SpecValue)
    requires
        word_end(c),
        0 <= k <= x.len(),
    ensures
        parse_accessor_rest(x + c, k, base) == parse_accessor_rest(
            x + c,
            parse_accessor_rest(x, k, base).0,
            parse_accessor_rest(x, k, base).1,
        ),
    decreases x.len() - k,
{
    lemma_tail_accessor_suffix(x, c, k);
    lemma_accessor_suffix(x, k);
    if let Some((r, key)) = parse_accessor_suffix(x, k) {
        lemma_tail_accessor_rest_whole(
            x,
            c,
            r,
            SpecValue::Accessor(Box::new(base), Box::new(key)),
        );
    }
}

/// Where the accessor suffixes on `x` stop before a `:` of `x`, they stop there on `x + c`.
pub proof fn lemma_tail_accessor_rest_colon(x: Seq<char>, c: Seq<char>, k: int, base: SpecValue)
    requires
        word_end(c),
        0 <= k <= x.len(),
        at(x, skip_ws(x, parse_accessor_rest(x, k, base).0), ':'),
    ensures
        parse_accessor_rest(x + c, k, base) == parse_accessor_rest(x, k, base),
    decreases x.len() - k,
{
    lemma_tail(x, c);
    lemma_tail_accessor_suffix(x, c, k);
    lemma_accessor_suffix(x, k);
    if let Some((r, key)) = parse_accessor_suffix(x, k) {
        lemma_tail_accessor_rest_colon(
            x,
            c,
            r,
            SpecValue::Accessor(Box::new(base), Box::new(key)),
        );
    } else {
        lemma_skip_ws(x, k);
        lemma_tail_skip_ws(x, c, k);
    }
}

/// Where the method suffixes on `x` run to its end, on `x + c` they pass through the same
/// steps and go on from there.
pub proof fn lemma_tail_method_rest_whole(x: Seq<char>, c: Seq<char>, k: int, recv: SpecValue)
    requires
        word_end(c),
        0 <= k <= x.len(),
    ensures
        parse_method_rest(x + c, k, recv) == parse_method_rest(
            x + c,
            parse_method_rest(x, k, recv).0,
            parse_method_rest(x, k, recv).1,
        ),
    decreases x.len() - k,
{
    lemma_tail_method_suffix(x, c, k);
    lemma_method_suffix(x, k);
    if let Some((r, name, args)) = parse_method_suffix(x, k) {
        lemma_tail_method_rest_whole(
            x,
            c,
            r,
            SpecValue::MethodCall(Box::new(recv), name, args),
        );
    }
}

/// Where `x` holds only whitespace from `e` on, whitespace skipping on `x + t` from `e`
/// ends where it ends from the start of `t`.
proof fn lemma_ws_tail(x: Seq<char>, t: Seq<char>, e: int)
    requires
        0 <= e <= x.len(),
        skip_ws(x, e) == x.len(),
    ensures
        skip_ws(x + t, e) == skip_ws(x + t, x.len() as int),
    decreases x.len() - e,
{
    if e < x.len() {
        assert(is_ws(x[e]));
        assert((x + t)[e] == x[e]);
        lemma_ws_tail(x, t, e + 1);
    }
}

/// A `unary` that reads all of `s` from `p` makes the whole expression there.
pub proof fn lemma_whole_from_unary(s: Seq<char>, p: int, l: nat, e: int, v: SpecValue)
    requires
        0 <= p <= s.len(),
        parse_unary(s, p) == Some((e, v)),
        skip_ws(s, e) == s.len(),
    ensures
        parse_binary(s, p, l) == Some((e, v)),
    decreases l,
{
    crate::laws::lemma_unary(s, p);
    lemma_end(s);
    if l > 0 {
        lemma_whole_from_unary(s, p, (l - 1) as nat, e, v);
    }
    assert(parse_binary_rest(s, e, l, v) == (e, v));
}

/// A value that starts with an identifier at `q` and reads all of `s` is the whole
/// expression.
proof fn lemma_whole_from_value(s: Seq<char>, q: int, e: int, v: SpecValue)
    requires
        q == skip_ws(s, 0),
        q < s.len(),
        is_ident_start(s[q]),
        parse_value(s, q) == Some((e, v)),
        skip_ws(s, e) == s.len(),
    ensures
        spec_parse(s) == Ok::<SpecValue, ParseError>(v),
{
    lemma_skip_ws(s, 0);
    lemma_skip_ws(s, q);
    assert(skip_ws(s, q) == q);
    assert(match_unary_op(s, q) is None);
    assert(parse_primary(s, q) == Some((e, v)));
    assert(parse_unary(s, q) == Some((e, v)));
    lemma_whole_from_unary(s, q, 4, e, v);
}

/// The whole of `x`, whitespace around it allowed, is an accessor chain with value `v`.
pub open spec fn chain_whole(x: Seq<char>, v: SpecValue) -> bool {
    match parse_accessor_chain(x, skip_ws(x, 0)) {
        Some((e, w)) => w == v && skip_ws(x, e) == x.len(),
        None => false,
    }
}

/// The whole of `x`, whitespace around it allowed, is a method call or an accessor chain
/// with value `v`: something a method can be called on.
pub open spec fn receiver_whole(x: Seq<char>, v: SpecValue) -> bool {
    ||| match parse_method_call(x, skip_ws(x, 0)) {
        Some((e, w)) => w == v && skip_ws(x, e) == x.len(),
        None => false,
    }
    ||| chain_whole(x, v)
}

/// The whole of `t`, whitespace around it allowed, is one accessor suffix naming `key`.
pub open spec fn suffix_whole(t: Seq<char>, key: SpecValue) -> bool {
    match parse_accessor_suffix(t, 0) {
        Some((e, k)) => k == key && skip_ws(t, e) == t.len(),
        None => false,
    }
}

/// The whole of `t`, whitespace around it allowed, is one method suffix calling `name`
/// with `args`.
pub open spec fn method_whole(t: Seq<char>, name: Seq<char>, args: Seq<SpecValue>) -> bool {
    match parse_method_suffix(t, 0) {
        Some((e, n, a)) => n == name && a == args && skip_ws(t, e) == t.len(),
        None => false,
    }
}

/// Accessor chains nest to the left: where `x` is, as a whole, an accessor chain with
/// value `vx`, and `t` is one accessor suffix (`.name` or `[key]`) naming `key`, the text
/// `x` then `t` parses to the access of `key` on `vx`.
pub proof fn law_accessor_suffix(x: Seq<char>, t: Seq<char>, vx: SpecValue, key: SpecValue)
    requires
        chain_whole(x, vx),
        suffix_whole(t, key),
    ensures
        spec_parse(x + t) == Ok::<SpecValue, ParseError>(
            SpecValue::Accessor(Box::new(vx), Box::new(key)),
        ),
{
    let s = x + t;
    let qt = skip_ws(t, 0);
    lemma_skip_ws(t, 0);
    assert(word_end(t));
    lemma_tail(x, t);
    let q0 = skip_ws(x, 0);
    lemma_skip_ws(x, 0);
    lemma_tail_skip_ws(x, t, 0);
    let (i1, nm) = lex_identifier(x, q0)->Some_0;
    lemma_tail_identifier(x, t, q0);
    lemma_identifier(x, q0);
    let base = SpecValue::Identifier(nm);
    let (e, v) = parse_accessor_rest(x, i1, base);
    lemma_accessor_rest(x, i1, base);
    lemma_tail_accessor_rest_whole(x, t, i1, base);
    // past `x`, the suffix `t`
    lemma_skip_ws(x, e);
    lemma_ws_tail(x, t, e);
    lemma_pre_skip_ws(x, t, 0);
    lemma_pre_accessor_suffix(x, t, 0);
    let et = parse_accessor_suffix(t, 0)->Some_0.0;
    lemma_accessor_suffix(t, 0);
    assert(parse_accessor_suffix(s, e) == parse_accessor_suffix(s, x.len() as int));
    let both = SpecValue::Accessor(Box::new(vx), Box::new(key));
    let big = x.len() + et;
    lemma_pre_skip_ws(x, t, et);
    assert(parse_accessor_suffix(s, big) is None);
    assert(parse_accessor_rest(s, big, both) == (big, both));
    assert(parse_accessor_chain(s, q0) == Some((big, both)));
    // neither a method call nor a function call
    assert(parse_method_suffix(s, big) is None);
    assert(parse_method_call(s, q0) is None);
    lemma_skip_ws(x, i1);
    lemma_tail_skip_ws(x, t, i1);
    if parse_accessor_suffix(x, i1) is None {
        assert(e == i1);
    }
    assert(!at(s, skip_ws(s, i1), '('));
    assert(parse_function_call(s, q0) is None);
    assert(parse_value(s, q0) == Some((big, both)));
    lemma_whole_from_value(s, q0, big, both);
}

/// Method calls chain to the left: where `x` is, as a whole, a method call or an accessor
/// chain with value `vx`, and `t` is one method suffix `:name(args)`, the text `x` then
/// `t` parses to the call of `name` with `args` on `vx`.
pub proof fn law_method_suffix(
    x: Seq<char>,
    t: Seq<char>,
    vx: SpecValue,
    name: Seq<char>,
    args: Seq<SpecValue>,
)
    requires
        receiver_whole(x, vx),
        method_whole(t, name, args),
    ensures
        spec_parse(x + t) == Ok::<SpecValue, ParseError>(
            SpecValue::MethodCall(Box::new(vx), name, args),
        ),
{
    let s = x + t;
    let qt = skip_ws(t, 0);
    lemma_skip_ws(t, 0);
    assert(word_end(t));
    lemma_tail(x, t);
    let q0 = skip_ws(x, 0);
    lemma_skip_ws(x, 0);
    lemma_tail_skip_ws(x, t, 0);
    crate::laws::lemma_method_call(x, q0);
    let (i1, nm) = lex_identifier(x, q0)->Some_0;
    lemma_tail_identifier(x, t, q0);
    lemma_identifier(x, q0);
    let base = SpecValue::Identifier(nm);
    let (e0, chain) = parse_accessor_rest(x, i1, base);
    lemma_accessor_rest(x, i1, base);
    lemma_pre_skip_ws(x, t, 0);
    lemma_pre_method_suffix(x, t, 0);
    lemma_method_suffix(t, 0);
    let et = parse_method_suffix(t, 0)->Some_0.0;
    let big = x.len() + et;
    let both = SpecValue::MethodCall(Box::new(vx), name, args);
    lemma_pre_skip_ws(x, t, et);
    assert(parse_method_suffix(s, big) is None);
    assert(parse_method_rest(s, big, both) == (big, both));
    let mc = parse_method_call(x, q0);
    if mc is Some && mc->Some_0.1 == vx && skip_ws(x, mc->Some_0.0) == x.len() {
        let e = mc->Some_0.0;
        // `x` is a method call: its chain stops before a `:` of `x`, and its suffixes run
        // to the end of `x`
        let (r1, n1, a1) = parse_method_suffix(x, e0)->Some_0;
        lemma_skip_ws(x, e0);
        lemma_tail_accessor_rest_colon(x, t, i1, base);
        lemma_tail_method_suffix(x, t, e0);
        lemma_method_suffix(x, e0);
        let first = SpecValue::MethodCall(Box::new(chain), n1, a1);
        lemma_tail_method_rest_whole(x, t, r1, first);
        lemma_method_rest(x, r1, first);
        lemma_skip_ws(x, e);
        lemma_ws_tail(x, t, e);
        assert(parse_method_suffix(s, e) == parse_method_suffix(s, x.len() as int));
        assert(parse_method_rest(s, e, vx) == (big, both));
        assert(parse_method_call(s, q0) == Some((big, both)));
    } else {
        // `x` is an accessor chain that runs to its end
        lemma_tail_accessor_rest_whole(x, t, i1, base);
        lemma_skip_ws(x, e0);
        lemma_ws_tail(x, t, e0);
        assert(parse_accessor_suffix(s, e0) is None);
        assert(parse_accessor_chain(s, q0) == Some((e0, vx)));
        assert(parse_method_suffix(s, e0) == parse_method_suffix(s, x.len() as int));
        assert(parse_method_call(s, q0) == Some((big, both)));
    }
    assert(parse_value(s, q0) == Some((big, both)));
    lemma_whole_from_value(s, q0, big, both);
}

} // verus!
