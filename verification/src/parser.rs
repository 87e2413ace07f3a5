use vstd::prelude::*;
use crate::grammar::{
    at, is_digit, is_ident_char, is_ident_start, is_ws, skip_ws, scan_digits, scan_ident,
    digits_value, lex_identifier, lex_digits, lex_integer, lex_signed_integer, exponent_end,
    float_end, lex_float, lex_signed_float, string_close, lex_string, lemma_scan_digits, parse_arg,
    parse_args_rest, parse_call_args, parse_index_value, parse_accessor_suffix,
    parse_accessor_rest, parse_accessor_chain, parse_function_call, parse_method_suffix,
    parse_method_rest, parse_method_call, parse_value, match_op, match_unary_op, parse_binary,
    parse_binary_rest, parse_unary, parse_primary, spec_parse, ParseError,
};
use crate::value::{BinaryOperator, UnaryOperator};
use crate::text::string_from_chars;
use crate::unescape::unescape_chars;
use crate::value::{SpecValue, Value, integers_fit, all_integers_fit, view_values, view_value};

verus! {

/// The parser of the expression language; its associated functions are the rules of the
/// grammar (see the `grammar` module), each proved to answer as its rule does.
pub struct RExprParser;

/// `res`, an answer of a rule that builds a value, agrees with `spec`, that rule's
/// definition: both fail, or both succeed at the same position; the flag of `res` tells
/// whether some integer literal in the value does not fit in an `i64`, and where none
/// does, the value is the one the definition gives.
pub open spec fn agrees(res: Option<(usize, Value, bool)>, spec: Option<(int, SpecValue)>) -> bool {
    match res {
        Some((q, v, big)) => match spec {
            Some((sq, sv)) => q == sq && big == !integers_fit(sv) && (!big ==> v@ == sv),
            None => false,
        },
        None => spec is None,
    }
}

/// `res`, an answer of a rule that builds a list of values, agrees with `spec`, that
/// rule's definition, in the way `agrees` says.
pub open spec fn agrees_list(
    res: Option<(usize, Vec<Value>, bool)>,
    spec: Option<(int, Seq<SpecValue>)>,
) -> bool {
    match res {
        Some((q, vs, big)) => match spec {
            Some((sq, svs)) => q == sq && big == !all_integers_fit(svs) && (!big ==> view_values(
                vs@,
            ) == svs),
            None => false,
        },
        None => spec is None,
    }
}

/// Appending a value appends its model.
pub proof fn lemma_view_values_push(vs: Seq<Value>, v: Value)
    ensures
        view_values(vs.push(v)) == view_values(vs).push(view_value(v)),
{
    assert(vs.push(v).drop_last() =~= vs);
}

/// Appending a value keeps the integers in range exactly where it has its own in range.
pub proof fn lemma_all_fit_push(svs: Seq<SpecValue>, sv: SpecValue)
    ensures
        all_integers_fit(svs.push(sv)) == (all_integers_fit(svs) && integers_fit(sv)),
{
    assert(svs.push(sv).drop_last() =~= svs);
}

/// A position found by a rule, as the definition states it.
pub open spec fn lift_pos(res: Option<usize>) -> Option<int> {
    match res {
        Some(e) => Some(e as int),
        None => None,
    }
}

impl RExprParser {
    /// `s` holds `c` at position `p`.
    pub fn at(s: &Vec<char>, p: usize, c: char) -> (b: bool)
        ensures
            b == at(s@, p as int, c),
    {
        p < s.len() && s[p] == c
    }

    pub fn is_whitespace(c: char) -> (b: bool)
        ensures
            b == is_ws(c),
    {
        c == ' ' || c == '\t' || c == '\n' || c == '\r'
    }

    pub fn is_digit(c: char) -> (b: bool)
        ensures
            b == is_digit(c),
    {
        '0' <= c && c <= '9'
    }

    pub fn is_ident_start(c: char) -> (b: bool)
        ensures
            b == is_ident_start(c),
    {
        ('a' <= c && c <= 'z') || ('A' <= c && c <= 'Z') || c == '_'
    }

    pub fn is_ident_char(c: char) -> (b: bool)
        ensures
            b == is_ident_char(c),
    {
        Self::is_ident_start(c) || Self::is_digit(c)
    }

    /// The position after the whitespace that starts at `p`.
    pub fn skip_ws(s: &Vec<char>, p: usize) -> (q: usize)
        requires
            p <= s.len(),
        ensures
            q == skip_ws(s@, p as int),
            p <= q <= s.len(),
    {
        let mut q = p;
        while q < s.len() && Self::is_whitespace(s[q])
            invariant
                p <= q <= s.len(),
                skip_ws(s@, q as int) == skip_ws(s@, p as int),
            decreases s.len() - q,
        {
            q = q + 1;
        }
        q
    }

    /// The position after the digits that start at `p`.
    pub fn scan_digits(s: &Vec<char>, p: usize) -> (q: usize)
        requires
            p <= s.len(),
        ensures
            q == scan_digits(s@, p as int),
            p <= q <= s.len(),
    {
        let mut q = p;
        while q < s.len() && Self::is_digit(s[q])
            invariant
                p <= q <= s.len(),
                scan_digits(s@, q as int) == scan_digits(s@, p as int),
            decreases s.len() - q,
        {
            q = q + 1;
        }
        q
    }

    /// The position after the identifier characters that start at `p`.
    pub fn scan_ident(s: &Vec<char>, p: usize) -> (q: usize)
        requires
            p <= s.len(),
        ensures
            q == scan_ident(s@, p as int),
            p <= q <= s.len(),
    {
        let mut q = p;
        while q < s.len() && Self::is_ident_char(s[q])
            invariant
                p <= q <= s.len(),
                scan_ident(s@, q as int) == scan_ident(s@, p as int),
            decreases s.len() - q,
        {
            q = q + 1;
        }
        q
    }

    /// `identifier`.
    pub fn lex_identifier(s: &Vec<char>, p: usize) -> (res: Option<(usize, String)>)
        requires
            p <= s.len(),
        ensures
            lex_identifier(s@, p as int) == match res {
                Some((e, name)) => Some((e as int, name@)),
                None => None,
            },
            res matches Some((e, _)) ==> p < e <= s.len(),
    {
        if p < s.len() && Self::is_ident_start(s[p]) {
            let e = Self::scan_ident(s, p + 1);
            Some((e, string_from_chars(s, p, e)))
        } else {
            None
        }
    }

    /// One or more digits at `p`: where they end.
    pub fn lex_digits(s: &Vec<char>, p: usize) -> (res: Option<usize>)
        requires
            p <= s.len(),
        ensures
            lex_digits(s@, p as int) == lift_pos(res),
            res matches Some(e) ==> p < e <= s.len() && forall|i: int|
                p <= i < e ==> is_digit(#[trigger] s@[i]),
    {
        if p < s.len() && Self::is_digit(s[p]) {
            let e = Self::scan_digits(s, p + 1);
            proof {
                lemma_scan_digits(s@, p + 1);
            }
            Some(e)
        } else {
            None
        }
    }

    /// The number written by the digits `from..to`, negated where `negative`, and whether
    /// it does not fit in an `i64`; where it fits, the `i64` is that number.
    pub fn digits_to_i64(s: &Vec<char>, from: usize, to: usize, negative: bool) -> (res: (
        i64,
        bool,
    ))
        requires
            from <= to <= s.len(),
            forall|i: int| from <= i < to ==> is_digit(#[trigger] s@[i]),
        ensures
            ({
                let m = digits_value(s@.subrange(from as int, to as int));
                let n = if negative {
                    -m
                } else {
                    m
                };
                &&& res.1 == !(i64::MIN <= n <= i64::MAX)
                &&& !res.1 ==> res.0 as int == n
            }),
    {
        let limit: u64 = 0x8000_0000_0000_0000;
        let mut acc: u64 = 0;
        let mut big = false;
        let mut i = from;
        assert(s@.subrange(from as int, from as int) =~= Seq::<char>::empty());
        while i < to
            invariant
                from <= i <= to <= s.len(),
                forall|k: int| from <= k < to ==> is_digit(#[trigger] s@[k]),
                digits_value(s@.subrange(from as int, i as int)) >= 0,
                !big ==> acc as int == digits_value(s@.subrange(from as int, i as int)) && acc
                    <= limit,
                big ==> digits_value(s@.subrange(from as int, i as int)) > limit,
            decreases to - i,
        {
            let c = s[i];
            assert(is_digit(s@[i as int]));
            let d: u64 = (c as u64) - ('0' as u64);
            assert(s@.subrange(from as int, i + 1).drop_last() =~= s@.subrange(
                from as int,
                i as int,
            ));
            assert(s@.subrange(from as int, i + 1).last() == c);
            if !big {
                let next: u128 = (acc as u128) * 10 + (d as u128);
                if next > limit as u128 {
                    big = true;
                } else {
                    acc = next as u64;
                }
            }
            i = i + 1;
        }
        if big {
            (0, true)
        } else if negative {
            if acc == limit {
                (i64::MIN, false)
            } else {
                (-(acc as i64), false)
            }
        } else {
            if acc == limit {
                (0, true)
            } else {
                (acc as i64, false)
            }
        }
    }

    /// `integer`.
    pub fn lex_integer(s: &Vec<char>, p: usize) -> (res: Option<(usize, Value, bool)>)
        requires
            p <= s.len(),
        ensures
            agrees(res, lex_integer(s@, p as int)),
            res matches Some((e, _, _)) ==> p < e <= s.len(),
    {
        match Self::lex_digits(s, p) {
            Some(e) => {
                let (n, big) = Self::digits_to_i64(s, p, e, false);
                Some((e, Value::Integer(n), big))
            },
            None => None,
        }
    }

    /// `integer_with_sign`.
    pub fn lex_signed_integer(s: &Vec<char>, p: usize) -> (res: Option<(usize, Value, bool)>)
        requires
            p <= s.len(),
        ensures
            agrees(res, lex_signed_integer(s@, p as int)),
            res matches Some((e, _, _)) ==> p < e <= s.len(),
    {
        if Self::at(s, p, '-') {
            match Self::lex_digits(s, p + 1) {
                Some(e) => {
                    let (n, big) = Self::digits_to_i64(s, p + 1, e, true);
                    Some((e, Value::Integer(n), big))
                },
                None => None,
            }
        } else {
            Self::lex_integer(s, p)
        }
    }

    /// Where the optional exponent of a float, looked for at `p`, ends.
    pub fn exponent_end(s: &Vec<char>, p: usize) -> (e: usize)
        requires
            p <= s.len(),
        ensures
            e == exponent_end(s@, p as int),
            p <= e <= s.len(),
    {
        if Self::at(s, p, 'e') || Self::at(s, p, 'E') {
            let f = if Self::at(s, p + 1, '+') || Self::at(s, p + 1, '-') {
                p + 2
            } else {
                p + 1
            };
            match Self::lex_digits(s, f) {
                Some(e) => e,
                None => p,
            }
        } else {
            p
        }
    }

    /// Where the unsigned float that starts at `p` ends.
    pub fn float_end(s: &Vec<char>, p: usize) -> (res: Option<usize>)
        requires
            p <= s.len(),
        ensures
            float_end(s@, p as int) == lift_pos(res),
            res matches Some(e) ==> p < e <= s.len(),
    {
        match Self::lex_digits(s, p) {
            Some(e1) => if Self::at(s, e1, '.') {
                match Self::lex_digits(s, e1 + 1) {
                    Some(e2) => Some(Self::exponent_end(s, e2)),
                    None => None,
                }
            } else {
                None
            },
            None => None,
        }
    }

    /// `float`.
    pub fn lex_float(s: &Vec<char>, p: usize) -> (res: Option<(usize, Value, bool)>)
        requires
            p <= s.len(),
        ensures
            agrees(res, lex_float(s@, p as int)),
            res matches Some((e, _, _)) ==> p < e <= s.len(),
    {
        match Self::float_end(s, p) {
            Some(e) => Some((e, Value::Float(string_from_chars(s, p, e)), false)),
            None => None,
        }
    }

    /// `float_with_sign`.
    pub fn lex_signed_float(s: &Vec<char>, p: usize) -> (res: Option<(usize, Value, bool)>)
        requires
            p <= s.len(),
        ensures
            agrees(res, lex_signed_float(s@, p as int)),
            res matches Some((e, _, _)) ==> p < e <= s.len(),
    {
        let q = if Self::at(s, p, '-') {
            p + 1
        } else {
            p
        };
        match Self::float_end(s, q) {
            Some(e) => Some((e, Value::Float(string_from_chars(s, p, e)), false)),
            None => None,
        }
    }

    /// The position of the quote that closes a string whose body starts at `p`.
    pub fn string_close(s: &Vec<char>, p: usize) -> (res: Option<usize>)
        requires
            p <= s.len(),
        ensures
            string_close(s@, p as int) == lift_pos(res),
            res matches Some(c) ==> p <= c < s.len(),
    {
        let mut i = p;
        loop
            invariant
                p <= i <= s.len(),
                string_close(s@, i as int) == string_close(s@, p as int),
            decreases s.len() - i,
        {
            if i >= s.len() {
                return None;
            }
            let c = s[i];
            if c == '"' {
                return Some(i);
            } else if c == '\\' {
                if i + 1 < s.len() {
                    i = i + 2;
                } else {
                    return None;
                }
            } else {
                i = i + 1;
            }
        }
    }

    /// `string`.
    pub fn lex_string(s: &Vec<char>, p: usize) -> (res: Option<(usize, Value, bool)>)
        requires
            p <= s.len(),
        ensures
            agrees(res, lex_string(s@, p as int)),
            res matches Some((e, _, _)) ==> p < e <= s.len(),
    {
        if Self::at(s, p, '"') {
            match Self::string_close(s, p + 1) {
                Some(c) => Some((c + 1, Value::String(unescape_chars(s, p + 1, c)), false)),
                None => None,
            }
        } else {
            None
        }
    }
    /// `arg`.
    pub fn parse_arg(s: &Vec<char>, p: usize) -> (res: Option<(usize, Value, bool)>)
        requires
            p <= s.len(),
        ensures
            agrees(res, parse_arg(s@, p as int)),
            res matches Some((e, _, _)) ==> p < e <= s.len(),
    {
        let q = Self::skip_ws(s, p);
        let a = Self::lex_signed_float(s, q);
        if a.is_some() {
            return a;
        }
        let b = Self::lex_signed_integer(s, q);
        if b.is_some() {
            return b;
        }
        Self::lex_string(s, q)
    }

    /// `(arg ("," arg)*)? ")"`, from just after the opening parenthesis.
    pub fn parse_call_args(s: &Vec<char>, p: usize) -> (res: Option<(usize, Vec<Value>, bool)>)
        requires
            p <= s.len(),
        ensures
            agrees_list(res, parse_call_args(s@, p as int)),
            res matches Some((e, _, _)) ==> p < e <= s.len(),
    {
        let mut args: Vec<Value> = Vec::new();
        let mut big = false;
        let mut pos = p;
        let ghost mut sargs: Seq<SpecValue> = Seq::empty();
        match Self::parse_arg(s, p) {
            Some((r, a, b)) => {
                let ghost sa = parse_arg(s@, p as int)->Some_0.1;
                let ghost target = parse_args_rest(s@, r as int, seq![sa]);
                proof {
                    lemma_view_values_push(args@, a);
                    lemma_all_fit_push(sargs, sa);
                    assert(sargs.push(sa) =~= seq![sa]);
                }
                args.push(a);
                big = b;
                pos = r;
                proof {
                    sargs = seq![sa];
                }
                loop
                    invariant
                        p < pos <= s.len(),
                        parse_args_rest(s@, pos as int, sargs) == target,
                        big == !all_integers_fit(sargs),
                        !big ==> view_values(args@) == sargs,
                    ensures
                        target == (pos as int, sargs),
                        p < pos <= s.len(),
                        big == !all_integers_fit(sargs),
                        !big ==> view_values(args@) == sargs,
                    decreases s.len() - pos,
                {
                    let q = Self::skip_ws(s, pos);
                    if !Self::at(s, q, ',') {
                        break;
                    }
                    match Self::parse_arg(s, q + 1) {
                        Some((r2, a2, b2)) => {
                            let ghost sa2 = parse_arg(s@, q + 1)->Some_0.1;
                            proof {
                                lemma_view_values_push(args@, a2);
                                lemma_all_fit_push(sargs, sa2);
                            }
                            args.push(a2);
                            big = big || b2;
                            pos = r2;
                            proof {
                                sargs = sargs.push(sa2);
                            }
                        },
                        None => {
                            break;
                        },
                    }
                }
            },
            None => {},
        }
        let t = Self::skip_ws(s, pos);
        if Self::at(s, t, ')') {
            Some((t + 1, args, big))
        } else {
            None
        }
    }

    /// `index_value`.
    pub fn parse_index_value(s: &Vec<char>, p: usize) -> (res: Option<(usize, Value, bool)>)
        requires
            p <= s.len(),
        ensures
            agrees(res, parse_index_value(s@, p as int)),
            res matches Some((e, _, _)) ==> p < e <= s.len(),
    {
        let a = Self::lex_signed_integer(s, p);
        if a.is_some() {
            return a;
        }
        Self::lex_string(s, p)
    }

    /// One accessor suffix: the key it names.
    pub fn parse_accessor_suffix(s: &Vec<char>, p: usize) -> (res: Option<(usize, Value, bool)>)
        requires
            p <= s.len(),
        ensures
            agrees(res, parse_accessor_suffix(s@, p as int)),
            res matches Some((e, _, _)) ==> p < e <= s.len(),
    {
        let q = Self::skip_ws(s, p);
        if Self::at(s, q, '.') {
            let q1 = Self::skip_ws(s, q + 1);
            match Self::lex_identifier(s, q1) {
                Some((r, name)) => Some((r, Value::Identifier(name), false)),
                None => None,
            }
        } else if Self::at(s, q, '[') {
            let q1 = Self::skip_ws(s, q + 1);
            match Self::parse_index_value(s, q1) {
                Some((r, key, big)) => {
                    let t = Self::skip_ws(s, r);
                    if Self::at(s, t, ']') {
                        Some((t + 1, key, big))
                    } else {
                        None
                    }
                },
                None => None,
            }
        } else {
            None
        }
    }

    /// `accessor_chain`.
    pub fn parse_accessor_chain(s: &Vec<char>, p: usize) -> (res: Option<(usize, Value, bool)>)
        requires
            p <= s.len(),
        ensures
            agrees(res, parse_accessor_chain(s@, p as int)),
            res matches Some((e, _, _)) ==> p < e <= s.len(),
    {
        match Self::lex_identifier(s, p) {
            Some((q, name)) => {
                let ghost target = parse_accessor_rest(
                    s@,
                    q as int,
                    SpecValue::Identifier(name@),
                );
                let mut base = Value::Identifier(name);
                let mut big = false;
                let mut pos = q;
                let ghost mut sbase = SpecValue::Identifier(base@->Identifier_0);
                loop
                    invariant
                        p < pos <= s.len(),
                        parse_accessor_rest(s@, pos as int, sbase) == target,
                        big == !integers_fit(sbase),
                        !big ==> base@ == sbase,
                    ensures
                        target == (pos as int, sbase),
                        p < pos <= s.len(),
                        big == !integers_fit(sbase),
                        !big ==> base@ == sbase,
                    decreases s.len() - pos,
                {
                    match Self::parse_accessor_suffix(s, pos) {
                        Some((r, key, b)) => {
                            let ghost skey = parse_accessor_suffix(s@, pos as int)->Some_0.1;
                            base = Value::Accessor(Box::new(base), Box::new(key));
                            big = big || b;
                            pos = r;
                            proof {
                                sbase = SpecValue::Accessor(Box::new(sbase), Box::new(skey));
                            }
                        },
                        None => {
                            break;
                        },
                    }
                }
                Some((pos, base, big))
            },
            None => None,
        }
    }

    /// `function_call`.
    pub fn parse_function_call(s: &Vec<char>, p: usize) -> (res: Option<(usize, Value, bool)>)
        requires
            p <= s.len(),
        ensures
            agrees(res, parse_function_call(s@, p as int)),
            res matches Some((e, _, _)) ==> p < e <= s.len(),
    {
        match Self::lex_identifier(s, p) {
            Some((q, name)) => {
                let t = Self::skip_ws(s, q);
                if Self::at(s, t, '(') {
                    match Self::parse_call_args(s, t + 1) {
                        Some((r, args, big)) => Some((r, Value::FunctionCall(name, args), big)),
                        None => None,
                    }
                } else {
                    None
                }
            },
            None => None,
        }
    }

    /// `method_suffix`: the method's name and arguments.
    pub fn parse_method_suffix(s: &Vec<char>, p: usize) -> (res: Option<
        (usize, String, Vec<Value>, bool),
    >)
        requires
            p <= s.len(),
        ensures
            match res {
                Some((e, name, args, big)) => match parse_method_suffix(s@, p as int) {
                    Some((se, sname, sargs)) => e == se && name@ == sname && big
                        == !all_integers_fit(sargs) && (!big ==> view_values(args@) == sargs),
                    None => false,
                },
                None => parse_method_suffix(s@, p as int) is None,
            },
            res matches Some((e, _, _, _)) ==> p < e <= s.len(),
    {
        let q = Self::skip_ws(s, p);
        if Self::at(s, q, ':') {
            let q1 = Self::skip_ws(s, q + 1);
            match Self::lex_identifier(s, q1) {
                Some((r, name)) => {
                    let t = Self::skip_ws(s, r);
                    if Self::at(s, t, '(') {
                        match Self::parse_call_args(s, t + 1) {
                            Some((u, args, big)) => Some((u, name, args, big)),
                            None => None,
                        }
                    } else {
                        None
                    }
                },
                None => None,
            }
        } else {
            None
        }
    }

    /// `method_call`.
    pub fn parse_method_call(s: &Vec<char>, p: usize) -> (res: Option<(usize, Value, bool)>)
        requires
            p <= s.len(),
        ensures
            agrees(res, parse_method_call(s@, p as int)),
            res matches Some((e, _, _)) ==> p < e <= s.len(),
    {
        match Self::parse_accessor_chain(s, p) {
            Some((q, base, bbig)) => match Self::parse_method_suffix(s, q) {
                Some((r, name, args, abig)) => {
                    let ghost sbase0 = parse_accessor_chain(s@, p as int)->Some_0.1;
                    let ghost ssuf = parse_method_suffix(s@, q as int)->Some_0;
                    let ghost sfirst = SpecValue::MethodCall(Box::new(sbase0), ssuf.1, ssuf.2);
                    let ghost target = parse_method_rest(s@, r as int, sfirst);
                    let mut recv = Value::MethodCall(Box::new(base), name, args);
                    let mut big = bbig || abig;
                    let mut pos = r;
                    let ghost mut srecv = sfirst;
                    loop
                        invariant
                            p < pos <= s.len(),
                            parse_method_rest(s@, pos as int, srecv) == target,
                            big == !integers_fit(srecv),
                            !big ==> recv@ == srecv,
                        ensures
                            target == (pos as int, srecv),
                            p < pos <= s.len(),
                            big == !integers_fit(srecv),
                            !big ==> recv@ == srecv,
                        decreases s.len() - pos,
                    {
                        match Self::parse_method_suffix(s, pos) {
                            Some((r2, name2, args2, b2)) => {
                                let ghost ssuf2 = parse_method_suffix(s@, pos as int)->Some_0;
                                recv = Value::MethodCall(Box::new(recv), name2, args2);
                                big = big || b2;
                                pos = r2;
                                proof {
                                    srecv = SpecValue::MethodCall(Box::new(srecv), ssuf2.1, ssuf2.2);
                                }
                            },
                            None => {
                                break;
                            },
                        }
                    }
                    Some((pos, recv, big))
                },
                None => None,
            },
            None => None,
        }
    }
    /// `value`.
    pub fn parse_value(s: &Vec<char>, p: usize) -> (res: Option<(usize, Value, bool)>)
        requires
            p <= s.len(),
        ensures
            agrees(res, parse_value(s@, p as int)),
            res matches Some((e, _, _)) ==> p < e <= s.len(),
    {
        let q = Self::skip_ws(s, p);
        let a = Self::parse_method_call(s, q);
        if a.is_some() {
            return a;
        }
        let b = Self::parse_function_call(s, q);
        if b.is_some() {
            return b;
        }
        let c = Self::parse_accessor_chain(s, q);
        if c.is_some() {
            return c;
        }
        let d = Self::lex_float(s, q);
        if d.is_some() {
            return d;
        }
        let e = Self::lex_integer(s, q);
        if e.is_some() {
            return e;
        }
        Self::lex_string(s, q)
    }

    /// The binary operator of the given precedence level at `q`, and where it ends.
    pub fn match_op(s: &Vec<char>, q: usize, level: usize) -> (res: Option<(usize, BinaryOperator)>)
        requires
            q <= s.len(),
        ensures
            match_op(s@, q as int, level as nat) == match res {
                Some((e, op)) => Some((e as int, op)),
                None => None,
            },
            res matches Some((e, _)) ==> q < e <= s.len(),
    {
        if level == 4 {
            if Self::at(s, q, '|') && Self::at(s, q + 1, '|') {
                Some((q + 2, BinaryOperator::Or))
            } else {
                None
            }
        } else if level == 3 {
            if Self::at(s, q, '&') && Self::at(s, q + 1, '&') {
                Some((q + 2, BinaryOperator::And))
            } else {
                None
            }
        } else if level == 2 {
            if Self::at(s, q, '=') && Self::at(s, q + 1, '=') {
                Some((q + 2, BinaryOperator::Equal))
            } else if Self::at(s, q, '!') && Self::at(s, q + 1, '=') {
                Some((q + 2, BinaryOperator::NotEqual))
            } else if Self::at(s, q, '<') && Self::at(s, q + 1, '=') {
                Some((q + 2, BinaryOperator::LessEqual))
            } else if Self::at(s, q, '>') && Self::at(s, q + 1, '=') {
                Some((q + 2, BinaryOperator::GreaterEqual))
            } else if Self::at(s, q, '<') {
                Some((q + 1, BinaryOperator::Less))
            } else if Self::at(s, q, '>') {
                Some((q + 1, BinaryOperator::Greater))
            } else {
                None
            }
        } else if level == 1 {
            if Self::at(s, q, '+') {
                Some((q + 1, BinaryOperator::Add))
            } else if Self::at(s, q, '-') {
                Some((q + 1, BinaryOperator::Subtract))
            } else {
                None
            }
        } else {
            if Self::at(s, q, '*') {
                Some((q + 1, BinaryOperator::Multiply))
            } else if Self::at(s, q, '/') {
                Some((q + 1, BinaryOperator::Divide))
            } else if Self::at(s, q, '%') {
                Some((q + 1, BinaryOperator::Modulo))
            } else {
                None
            }
        }
    }

    /// The prefix operator at `q`.
    pub fn match_unary_op(s: &Vec<char>, q: usize) -> (res: Option<UnaryOperator>)
        requires
            q <= s.len(),
        ensures
            res == match_unary_op(s@, q as int),
    {
        if Self::at(s, q, '!') {
            Some(UnaryOperator::Not)
        } else if Self::at(s, q, '-') {
            Some(UnaryOperator::Negate)
        } else if Self::at(s, q, '~') {
            Some(UnaryOperator::BitwiseNot)
        } else {
            None
        }
    }

    /// The binary rule of the given level: `logical_or` (4) down to `multiplicative` (0).
    pub fn parse_binary(s: &Vec<char>, p: usize, level: usize) -> (res: Option<(usize, Value, bool)>)
        requires
            p <= s.len(),
            level <= 4,
        ensures
            agrees(res, parse_binary(s@, p as int, level as nat)),
            res matches Some((e, _, _)) ==> p < e <= s.len(),
        decreases s.len() - p, 2 * level + 3,
    {
        let first = if level == 0 {
            Self::parse_unary(s, p)
        } else {
            Self::parse_binary(s, p, level - 1)
        };
        let ghost sfirst = if level == 0 {
            parse_unary(s@, p as int)
        } else {
            parse_binary(s@, p as int, (level - 1) as nat)
        };
        match first {
            Some((q, left, lbig)) => {
                let ghost sleft = sfirst->Some_0.1;
                let ghost target = parse_binary_rest(s@, q as int, level as nat, sleft);
                let mut acc = left;
                let mut big = lbig;
                let mut pos = q;
                let ghost mut sacc = sleft;
                loop
                    invariant
                        p < q <= pos <= s.len(),
                        level <= 4,
                        parse_binary_rest(s@, pos as int, level as nat, sacc) == target,
                        big == !integers_fit(sacc),
                        !big ==> acc@ == sacc,
                    ensures
                        target == (pos as int, sacc),
                        p < pos <= s.len(),
                        big == !integers_fit(sacc),
                        !big ==> acc@ == sacc,
                    decreases s.len() - pos,
                {
                    let t = Self::skip_ws(s, pos);
                    match Self::match_op(s, t, level) {
                        Some((r, op)) => {
                            let operand = if level == 0 {
                                Self::parse_unary(s, r)
                            } else {
                                Self::parse_binary(s, r, level - 1)
                            };
                            let ghost soperand = if level == 0 {
                                parse_unary(s@, r as int)
                            } else {
                                parse_binary(s@, r as int, (level - 1) as nat)
                            };
                            match operand {
                                Some((u, right, rbig)) => {
                                    let ghost sright = soperand->Some_0.1;
                                    acc = Value::BinaryOp(op, Box::new(acc), Box::new(right));
                                    big = big || rbig;
                                    pos = u;
                                    proof {
                                        sacc = SpecValue::BinaryOp(
                                            op,
                                            Box::new(sacc),
                                            Box::new(sright),
                                        );
                                    }
                                },
                                None => {
                                    break;
                                },
                            }
                        },
                        None => {
                            break;
                        },
                    }
                }
                Some((pos, acc, big))
            },
            None => None,
        }
    }

    /// `unary`.
    pub fn parse_unary(s: &Vec<char>, p: usize) -> (res: Option<(usize, Value, bool)>)
        requires
            p <= s.len(),
        ensures
            agrees(res, parse_unary(s@, p as int)),
            res matches Some((e, _, _)) ==> p < e <= s.len(),
        decreases s.len() - p, 1int,
    {
        let q = Self::skip_ws(s, p);
        match Self::match_unary_op(s, q) {
            Some(op) => match Self::parse_unary(s, q + 1) {
                Some((r, v, big)) => Some((r, Value::UnaryOp(op, Box::new(v)), big)),
                None => Self::parse_primary(s, q),
            },
            None => Self::parse_primary(s, q),
        }
    }

    /// `primary`.
    pub fn parse_primary(s: &Vec<char>, p: usize) -> (res: Option<(usize, Value, bool)>)
        requires
            p <= s.len(),
        ensures
            agrees(res, parse_primary(s@, p as int)),
            res matches Some((e, _, _)) ==> p < e <= s.len(),
        decreases s.len() - p, 0int,
    {
        let q = Self::skip_ws(s, p);
        if Self::at(s, q, '(') {
            match Self::parse_binary(s, q + 1, 4) {
                Some((r, v, big)) => {
                    let t = Self::skip_ws(s, r);
                    if Self::at(s, t, ')') {
                        Some((t + 1, v, big))
                    } else {
                        None
                    }
                },
                None => None,
            }
        } else {
            Self::parse_value(s, q)
        }
    }

    /// `program`, on the characters of the input: the result, and whether some integer
    /// literal of the expression does not fit in an `i64`, in which case the result is
    /// `IntegerOutOfRange`.
    pub fn parse_program(s: &Vec<char>) -> (res: (Result<Value, ParseError>, bool))
        ensures
            match spec_parse(s@) {
                Ok(v) => res.1 == !integers_fit(v) && if integers_fit(v) {
                    res.0 is Ok && res.0->Ok_0@ == v
                } else {
                    res.0 == Err::<Value, ParseError>(ParseError::IntegerOutOfRange)
                },
                Err(e) => res.0 == Err::<Value, ParseError>(e) && !res.1,
            },
    {
        let q = Self::skip_ws(s, 0);
        match Self::parse_binary(s, q, 4) {
            Some((r, v, big)) => {
                let t = Self::skip_ws(s, r);
                if t != s.len() {
                    (Err(ParseError::TrailingInput { position: t }), false)
                } else if big {
                    (Err(ParseError::IntegerOutOfRange), true)
                } else {
                    (Ok(v), false)
                }
            },
            None => (Err(ParseError::InvalidExpression { position: q }), false),
        }
    }
}

} // verus!
