//! How binary operators group: an expression of an operator's level, the operator, and an
//! operand of a tighter level parse to that operator applied to the two. So operators of
//! one level associate to the left (`1 - 2 - 3` is `(1 - 2) - 3`), and tighter operators
//! take their operands first (`1 + 2 * 3` is `1 + (2 * 3)`).
use vstd::prelude::*;
use crate::grammar::{
    skip_ws, match_op, parse_binary, parse_binary_rest, parse_unary, parse_primary, parse_value,
    match_unary_op, lemma_skip_ws, spec_parse, ParseError,
};
use crate::laws::{lemma_binary, lemma_unary};
use crate::context::{
    ctx_ok, crel, lemma_ctx, lemma_ctx_skip_ws, lemma_ctx_match_op, lemma_ctx_unary,
    lemma_ctx_binary, lemma_stops_up, lemma_end_fails,
};
use crate::prefix::{lemma_pre_skip_ws, lemma_pre_unary, lemma_pre_binary};
use crate::parens::lemma_end;
use crate::value::{BinaryOperator, UnaryOperator, SpecValue};
use crate::chains::lemma_whole_from_unary;

verus! {

/// How tightly an operator binds: 4 for `||`, 3 for `&&`, 2 for the comparisons, 1 for
/// `+ -` and 0, the tightest, for `* / %`.
pub open spec fn op_level(op: BinaryOperator) -> nat {
    match op {
        BinaryOperator::Or => 4,
        BinaryOperator::And => 3,
        BinaryOperator::Equal | BinaryOperator::NotEqual | BinaryOperator::Less
        | BinaryOperator::LessEqual | BinaryOperator::Greater | BinaryOperator::GreaterEqual => 2,
        BinaryOperator::Add | BinaryOperator::Subtract => 1,
        BinaryOperator::Multiply | BinaryOperator::Divide | BinaryOperator::Modulo => 0,
    }
}

/// The rule for an operand of an operator of the given level: the binary rule one level
/// tighter, or `unary` below the tightest level.
pub open spec fn operand_of(s: Seq<char>, p: int, level: nat) -> Option<(int, SpecValue)> {
    if level == 0 {
        parse_unary(s, p)
    } else {
        parse_binary(s, p, (level - 1) as nat)
    }
}

/// The whole of `x`, whitespace around it allowed, is an expression of the given level
/// whose value is `v`.
pub open spec fn parses_at(x: Seq<char>, level: nat, v: SpecValue) -> bool {
    match parse_binary(x, skip_ws(x, 0), level) {
        Some((e, w)) => w == v && skip_ws(x, e) == x.len(),
        None => false,
    }
}

/// The whole of `y`, whitespace around it allowed, is an operand of an operator of the
/// given level whose value is `v`.
pub open spec fn operand_parses(y: Seq<char>, level: nat, v: SpecValue) -> bool {
    match operand_of(y, 0, level) {
        Some((e, w)) => w == v && skip_ws(y, e) == y.len(),
        None => false,
    }
}

/// An operand starts, past whitespace, with no `=`: after `<` or `>` it cannot make `<=`.
proof fn lemma_operand_start(y: Seq<char>, level: nat)
    requires
        operand_of(y, 0, level) is Some,
    ensures
        y.len() > 0,
        y[0] != '=',
    decreases level,
{
    if level > 0 {
        lemma_binary_first(y, 0, (level - 1) as nat);
        lemma_operand_start(y, (level - 1) as nat);
    }
    let q = skip_ws(y, 0);
    lemma_skip_ws(y, 0);
    if q == y.len() {
        lemma_end_fails(y, 0);
        assert(parse_unary(y, 0) == parse_unary(y, y.len() as int)) by {
            lemma_skip_ws(y, y.len() as int);
        }
    } else if y[q] == '=' {
        assert(match_unary_op(y, q) is None);
        assert(parse_value(y, q) is None);
        assert(parse_primary(y, q) is None);
    }
}

/// A binary rule that matches starts with a `unary` that matches.
proof fn lemma_binary_first(y: Seq<char>, p: int, level: nat)
    requires
        parse_binary(y, p, level) is Some,
    ensures
        parse_unary(y, p) is Some,
    decreases level,
{
    if level > 0 {
        lemma_binary_first(y, p, (level - 1) as nat);
    }
}

/// Where the repetition of operators at `level` on `x` runs to the end of `x`, on `x + c`
/// it passes through the same steps: it goes on from where it ended on `x`.
proof fn lemma_rest_whole(x: Seq<char>, c: Seq<char>, level: nat, k: int, left: SpecValue)
    requires
        ctx_ok(c, level),
        0 <= k <= x.len(),
        skip_ws(x, parse_binary_rest(x, k, level, left).0) == x.len(),
    ensures
        parse_binary_rest(x + c, k, level, left) == parse_binary_rest(
            x + c,
            parse_binary_rest(x, k, level, left).0,
            level,
            parse_binary_rest(x, k, level, left).1,
        ),
    decreases x.len() - k,
{
    let s = x + c;
    let q = skip_ws(x, k);
    lemma_ctx(x, c, level);
    lemma_end(x);
    lemma_skip_ws(x, k);
    lemma_ctx_skip_ws(x, c, level, k);
    lemma_ctx_match_op(x, c, level, q, level);
    if q < x.len() {
        if let Some((r, op)) = match_op(x, q, level) {
            lemma_end_fails(x, (level - 1) as nat);
            if level == 0 {
                lemma_ctx_unary(x, c, level, r);
                lemma_unary(x, r);
            } else {
                lemma_ctx_binary(x, c, level, r, (level - 1) as nat);
                lemma_binary(x, r, (level - 1) as nat);
            }
            let operand_x = operand_of(x, r, level);
            let operand_s = operand_of(s, r, level);
            assert(crel(x, operand_s, operand_x, level - 1, level));
            if let Some((t, right)) = operand_x {
                let next = SpecValue::BinaryOp(op, Box::new(left), Box::new(right));
                if operand_s != operand_x {
                    lemma_skip_ws(x, t);
                    lemma_stops_up(x, t, level, level, next);
                } else {
                    lemma_rest_whole(x, c, level, t, next);
                }
            }
        }
    }
}

/// Where a binary rule at `level` reads all of `s` from `p`, every looser binary rule
/// answers the same.
proof fn lemma_binary_up(s: Seq<char>, p: int, level: nat, l: nat, e: int, v: SpecValue)
    requires
        0 <= p <= s.len(),
        level <= l,
        parse_binary(s, p, level) == Some((e, v)),
        skip_ws(s, e) == s.len(),
    ensures
        parse_binary(s, p, l) == Some((e, v)),
    decreases l,
{
    lemma_binary(s, p, level);
    if l > level {
        lemma_binary_up(s, p, level, (l - 1) as nat, e, v);
        assert(match_op(s, s.len() as int, l) is None);
        assert(parse_binary_rest(s, e, l, v) == (e, v));
    }
}

/// Operators of one level group to the left, and tighter ones bind first: where `x` is,
/// as a whole, an expression of the level of `op` with value `vx`, and `y` is, as a whole,
/// an operand of a tighter level with value `vy`, the text `x`, then the symbol of `op`,
/// then `y` parses to `op` applied to `vx` and `vy`.
pub proof fn law_binary_operator(x: Seq<char>, op: BinaryOperator, y: Seq<char>, vx: SpecValue, vy: SpecValue)
    requires
        parses_at(x, op_level(op), vx),
        operand_parses(y, op_level(op), vy),
    ensures
        spec_parse(x + op.spec_symbol() + y) == Ok::<SpecValue, ParseError>(
            SpecValue::BinaryOp(op, Box::new(vx), Box::new(vy)),
        ),
{
    let level = op_level(op);
    let sym = op.spec_symbol();
    let c = sym + y;
    let u = x + sym;
    let s = x + c;
    assert(x + sym + y =~= s);
    assert(u + y =~= s);
    lemma_operand_start(y, level);
    assert(c[0] == sym[0]);
    assert(c[sym.len() as int] == y[0]);
    if sym.len() > 1 {
        assert(c[1] == sym[1]);
    }
    assert(match_op(c, 0, level) == Some((sym.len() as int, op)));
    assert(ctx_ok(c, level));
    lemma_ctx(x, c, level);
    // the left operand: `x` reads the same at the start of `s`
    let p0 = skip_ws(x, 0);
    lemma_skip_ws(x, 0);
    lemma_ctx_skip_ws(x, c, level, 0);
    let (ex, wx) = parse_binary(x, p0, level)->Some_0;
    if level == 0 {
        lemma_ctx_unary(x, c, level, p0);
        lemma_unary(x, p0);
    } else {
        lemma_ctx_binary(x, c, level, p0, (level - 1) as nat);
        lemma_binary(x, p0, (level - 1) as nat);
    }
    let (e1, v1) = operand_of(x, p0, level)->Some_0;
    if operand_of(s, p0, level) != operand_of(x, p0, level) {
        lemma_stops_up(x, e1, level, level, v1);
        lemma_skip_ws(x, e1);
    }
    lemma_rest_whole(x, c, level, e1, v1);
    // the operator and the right operand
    lemma_ctx_skip_ws(x, c, level, ex);
    let r0 = u.len() as int;
    if level == 0 {
        lemma_pre_unary(u, y, 0);
    } else {
        lemma_pre_binary(u, y, 0, (level - 1) as nat);
    }
    let (ey, wy) = operand_of(y, 0, level)->Some_0;
    lemma_pre_skip_ws(u, y, ey);
    lemma_end(s);
    let both = SpecValue::BinaryOp(op, Box::new(vx), Box::new(vy));
    assert(parse_binary_rest(s, r0 + ey, level, both) == (r0 + ey, both));
    assert(parse_binary_rest(s, ex, level, vx) == (r0 + ey, both));
    assert(parse_binary(s, p0, level) == Some((r0 + ey, both)));
    lemma_binary_up(s, p0, level, 4, r0 + ey, both);
    lemma_ctx_skip_ws(x, c, level, 0);
}

/// Prefix operators apply to the whole unary expression after them, so they nest: where
/// `y` is, as a whole, a unary expression with value `vy`, the symbol of `op` then `y`
/// parses to `op` applied to `vy`.
pub proof fn law_unary_operator(op: UnaryOperator, y: Seq<char>, vy: SpecValue)
    requires
        operand_parses(y, 0, vy),
    ensures
        spec_parse(op.spec_symbol() + y) == Ok::<SpecValue, ParseError>(
            SpecValue::UnaryOp(op, Box::new(vy)),
        ),
{
    let u = op.spec_symbol();
    let s = u + y;
    lemma_pre_unary(u, y, 0);
    let ey = parse_unary(y, 0)->Some_0.0;
    lemma_unary(y, 0);
    lemma_pre_skip_ws(u, y, ey);
    assert(s[0] == u[0]);
    assert(skip_ws(s, 0) == 0);
    assert(match_unary_op(s, 0) == Some(op));
    let v = SpecValue::UnaryOp(op, Box::new(vy));
    assert(parse_unary(s, 0) == Some((1 + ey, v)));
    lemma_whole_from_unary(s, 0, 4, 1 + ey, v);
}

} // verus!
