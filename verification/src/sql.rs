//! The SQL expression a parsed value stands for, in the shape that a query builder such as
//! `sea_query` takes it: literals become values, identifiers and accessors become columns,
//! operators become SQL operators, and calls become SQL function calls.
use vstd::prelude::*;
use crate::value::{BinaryOperator, UnaryOperator, SpecValue, Value, view_value, view_values};

verus! {

/// SQL binary operators.
#[derive(Debug, Clone, Copy, PartialEq, Eq, Structural)]
pub enum SqlBinOper {
    And,
    Or,
    Equal,
    NotEqual,
    SmallerThan,
    GreaterThan,
    SmallerThanOrEqual,
    GreaterThanOrEqual,
    Add,
    Sub,
    Mul,
    Div,
    Mod,
}

/// SQL prefix operators.
#[derive(Debug, Clone, Copy, PartialEq, Eq, Structural)]
pub enum SqlUnOper {
    Not,
}

/// An SQL literal value. A double is kept as the text of the float literal it comes from.
#[derive(Debug, PartialEq)]
pub enum SqlValue {
    BigInt(i64),
    Double(String),
    String(String),
}

/// An SQL expression.
#[derive(Debug, PartialEq)]
pub enum SqlExpr {
    Value(SqlValue),
    /// A column, by name.
    Column(String),
    Unary(SqlUnOper, Box<SqlExpr>),
    Binary(Box<SqlExpr>, SqlBinOper, Box<SqlExpr>),
    /// A call of a custom SQL function, by name, with its arguments.
    FunctionCall(String, Vec<SqlExpr>),
}

/// The model of an SQL literal.
pub enum SpecSqlValue {
    BigInt(int),
    Double(Seq<char>),
    String(Seq<char>),
}

/// The model of an SQL expression.
pub enum SpecSqlExpr {
    Value(SpecSqlValue),
    Column(Seq<char>),
    Unary(SqlUnOper, Box<SpecSqlExpr>),
    Binary(Box<SpecSqlExpr>, SqlBinOper, Box<SpecSqlExpr>),
    FunctionCall(Seq<char>, Seq<SpecSqlExpr>),
}

pub open spec fn view_sql_value(v: SqlValue) -> SpecSqlValue {
    match v {
        SqlValue::BigInt(n) => SpecSqlValue::BigInt(n as int),
        SqlValue::Double(t) => SpecSqlValue::Double(t@),
        SqlValue::String(t) => SpecSqlValue::String(t@),
    }
}

/// The model of each expression of a sequence.
pub open spec fn view_sql_exprs(es: Seq<SqlExpr>) -> Seq<SpecSqlExpr>
    decreases es,
{
    if es.len() == 0 {
        Seq::empty()
    } else {
        view_sql_exprs(es.drop_last()).push(view_sql_expr(es.last()))
    }
}

/// The model of an SQL expression.
pub open spec fn view_sql_expr(e: SqlExpr) -> SpecSqlExpr
    decreases e,
{
    match e {
        SqlExpr::Value(v) => SpecSqlExpr::Value(view_sql_value(v)),
        SqlExpr::Column(c) => SpecSqlExpr::Column(c@),
        SqlExpr::Unary(op, a) => SpecSqlExpr::Unary(op, Box::new(view_sql_expr(*a))),
        SqlExpr::Binary(a, op, b) => SpecSqlExpr::Binary(
            Box::new(view_sql_expr(*a)),
            op,
            Box::new(view_sql_expr(*b)),
        ),
        SqlExpr::FunctionCall(n, args) => SpecSqlExpr::FunctionCall(n@, view_sql_exprs(args@)),
    }
}

impl View for SqlExpr {
    type V = SpecSqlExpr;

    open spec fn view(&self) -> SpecSqlExpr {
        view_sql_expr(*self)
    }
}

/// Why a value has no SQL form.
#[derive(Debug, Clone, Copy, PartialEq, Eq, Structural)]
pub enum SqlConversionError {
    /// An accessor whose field is not an identifier, such as `arr[0]`.
    AccessorFieldNotIdentifier,
    /// The bitwise-not operator `~`, which has no SQL counterpart here.
    BitwiseNotUnsupported,
}

/// The SQL operator of a binary operator.
pub open spec fn spec_sql_oper(op: BinaryOperator) -> SqlBinOper {
    match op {
        BinaryOperator::Add => SqlBinOper::Add,
        BinaryOperator::Subtract => SqlBinOper::Sub,
        BinaryOperator::Multiply => SqlBinOper::Mul,
        BinaryOperator::Divide => SqlBinOper::Div,
        BinaryOperator::Modulo => SqlBinOper::Mod,
        BinaryOperator::Equal => SqlBinOper::Equal,
        BinaryOperator::NotEqual => SqlBinOper::NotEqual,
        BinaryOperator::Less => SqlBinOper::SmallerThan,
        BinaryOperator::LessEqual => SqlBinOper::SmallerThanOrEqual,
        BinaryOperator::Greater => SqlBinOper::GreaterThan,
        BinaryOperator::GreaterEqual => SqlBinOper::GreaterThanOrEqual,
        BinaryOperator::And => SqlBinOper::And,
        BinaryOperator::Or => SqlBinOper::Or,
    }
}

impl BinaryOperator {
    /// The SQL operator of this operator (`<` is `SmallerThan`, `-` is `Sub`, and so on).
    pub fn to_sql_oper(&self) -> (res: SqlBinOper)
        ensures
            res == spec_sql_oper(*self),
    {
        match self {
            BinaryOperator::Add => SqlBinOper::Add,
            BinaryOperator::Subtract => SqlBinOper::Sub,
            BinaryOperator::Multiply => SqlBinOper::Mul,
            BinaryOperator::Divide => SqlBinOper::Div,
            BinaryOperator::Modulo => SqlBinOper::Mod,
            BinaryOperator::Equal => SqlBinOper::Equal,
            BinaryOperator::NotEqual => SqlBinOper::NotEqual,
            BinaryOperator::Less => SqlBinOper::SmallerThan,
            BinaryOperator::LessEqual => SqlBinOper::SmallerThanOrEqual,
            BinaryOperator::Greater => SqlBinOper::GreaterThan,
            BinaryOperator::GreaterEqual => SqlBinOper::GreaterThanOrEqual,
            BinaryOperator::And => SqlBinOper::And,
            BinaryOperator::Or => SqlBinOper::Or,
        }
    }
}

/// The first of two errors, in the order the conversion meets them.
pub open spec fn first_error(
    a: Option<SqlConversionError>,
    b: Option<SqlConversionError>,
) -> Option<SqlConversionError> {
    if a is Some {
        a
    } else {
        b
    }
}

/// The first error that converting `v` to SQL meets, or `None` where it has an SQL form.
/// The conversion visits an operand before its operator, a left operand before the right,
/// a receiver before the arguments, and arguments from left to right; of an accessor it
/// reads only the field.
pub open spec fn spec_sql_error(v: SpecValue) -> Option<SqlConversionError>
    decreases v,
{
    match v {
        SpecValue::Accessor(_, f) => if (*f) is Identifier {
            None
        } else {
            Some(SqlConversionError::AccessorFieldNotIdentifier)
        },
        SpecValue::UnaryOp(op, a) => first_error(
            spec_sql_error(*a),
            if op == UnaryOperator::BitwiseNot {
                Some(SqlConversionError::BitwiseNotUnsupported)
            } else {
                None
            },
        ),
        SpecValue::BinaryOp(_, a, b) => first_error(spec_sql_error(*a), spec_sql_error(*b)),
        SpecValue::FunctionCall(_, args) => spec_sql_errors(args),
        SpecValue::MethodCall(r, _, args) => first_error(spec_sql_error(*r), spec_sql_errors(args)),
        _ => None,
    }
}

/// The first error that converting the values `vs`, from left to right, meets.
pub open spec fn spec_sql_errors(vs: Seq<SpecValue>) -> Option<SqlConversionError>
    decreases vs,
{
    if vs.len() == 0 {
        None
    } else {
        first_error(spec_sql_error(vs[0]), spec_sql_errors(vs.skip(1)))
    }
}

/// The SQL form of `v`: integers are big integers, floats doubles, strings strings; an
/// identifier is the column of that name, and so is an accessor, by the name of its last
/// field; `!x` is SQL `NOT`, `-x` is `-1 * x`; binary operators map to their SQL operators;
/// a function call is a custom SQL function call, and a method call is a call of the
/// method as an SQL function whose first argument is the receiver.
pub open spec fn spec_to_sql(v: SpecValue) -> SpecSqlExpr
    decreases v,
{
    match v {
        SpecValue::Integer(n) => SpecSqlExpr::Value(SpecSqlValue::BigInt(n)),
        SpecValue::Float(t) => SpecSqlExpr::Value(SpecSqlValue::Double(t)),
        SpecValue::String(t) => SpecSqlExpr::Value(SpecSqlValue::String(t)),
        SpecValue::Identifier(t) => SpecSqlExpr::Column(t),
        SpecValue::Accessor(_, f) => match *f {
            SpecValue::Identifier(t) => SpecSqlExpr::Column(t),
            _ => SpecSqlExpr::Column(Seq::empty()),
        },
        SpecValue::UnaryOp(op, a) => if op == UnaryOperator::Negate {
            SpecSqlExpr::Binary(
                Box::new(SpecSqlExpr::Value(SpecSqlValue::BigInt(-1))),
                SqlBinOper::Mul,
                Box::new(spec_to_sql(*a)),
            )
        } else {
            SpecSqlExpr::Unary(SqlUnOper::Not, Box::new(spec_to_sql(*a)))
        },
        SpecValue::BinaryOp(op, a, b) => SpecSqlExpr::Binary(
            Box::new(spec_to_sql(*a)),
            spec_sql_oper(op),
            Box::new(spec_to_sql(*b)),
        ),
        SpecValue::FunctionCall(name, args) => SpecSqlExpr::FunctionCall(name, spec_to_sql_all(args)),
        SpecValue::MethodCall(r, m, args) => SpecSqlExpr::FunctionCall(
            m,
            seq![spec_to_sql(*r)] + spec_to_sql_all(args),
        ),
    }
}

/// The SQL forms of the values `vs`, in order.
pub open spec fn spec_to_sql_all(vs: Seq<SpecValue>) -> Seq<SpecSqlExpr>
    decreases vs,
{
    if vs.len() == 0 {
        Seq::empty()
    } else {
        spec_to_sql_all(vs.drop_last()).push(spec_to_sql(vs.last()))
    }
}

pub proof fn lemma_view_values_index(vs: Seq<Value>)
    ensures
        view_values(vs).len() == vs.len(),
        forall|i: int| 0 <= i < vs.len() ==> #[trigger] view_values(vs)[i] == view_value(vs[i]),
    decreases vs.len(),
{
    if vs.len() > 0 {
        lemma_view_values_index(vs.drop_last());
    }
}

pub proof fn lemma_view_sql_exprs_push(es: Seq<SqlExpr>, e: SqlExpr)
    ensures
        view_sql_exprs(es.push(e)) == view_sql_exprs(es).push(view_sql_expr(e)),
{
    assert(es.push(e).drop_last() =~= es);
}

/// No error among `vs` means no error in any of them.
pub proof fn lemma_sql_errors_none(vs: Seq<SpecValue>)
    ensures
        spec_sql_errors(vs) is None ==> forall|i: int|
            0 <= i < vs.len() ==> #[trigger] spec_sql_error(vs[i]) is None,
    decreases vs.len(),
{
    if vs.len() > 0 {
        lemma_sql_errors_none(vs.skip(1));
        if spec_sql_errors(vs) is None {
            assert forall|i: int| 0 <= i < vs.len() implies #[trigger] spec_sql_error(
                vs[i],
            ) is None by {
                if i > 0 {
                    assert(vs[i] == vs.skip(1)[i - 1]);
                }
            }
        }
    }
}

impl Value {
    /// The first error that converting this value to SQL meets, or `None` where it has an
    /// SQL form.
    pub fn sql_conversion_error(&self) -> (res: Option<SqlConversionError>)
        ensures
            res == spec_sql_error(self@),
        decreases self,
    {
        match self {
            Value::Accessor(_, f) => {
                proof {
                    reveal_with_fuel(view_value, 2);
                }
                match &**f {
                    Value::Identifier(_) => None,
                    _ => Some(SqlConversionError::AccessorFieldNotIdentifier),
                }
            },
            Value::Integer(_) => None,
            Value::Float(_) => None,
            Value::String(_) => None,
            Value::Identifier(_) => None,
            Value::UnaryOp(op, a) => {
                let e = a.sql_conversion_error();
                if e.is_some() {
                    e
                } else if *op == UnaryOperator::BitwiseNot {
                    Some(SqlConversionError::BitwiseNotUnsupported)
                } else {
                    None
                }
            },
            Value::BinaryOp(_, a, b) => {
                let e = a.sql_conversion_error();
                if e.is_some() {
                    e
                } else {
                    b.sql_conversion_error()
                }
            },
            Value::FunctionCall(_, args) => Self::sql_conversion_error_all(args),
            Value::MethodCall(r, _, args) => {
                let e = r.sql_conversion_error();
                if e.is_some() {
                    e
                } else {
                    Self::sql_conversion_error_all(args)
                }
            },
        }
    }

    /// The first error that converting `args`, from left to right, meets.
    fn sql_conversion_error_all(args: &Vec<Value>) -> (res: Option<SqlConversionError>)
        ensures
            res == spec_sql_errors(view_values(args@)),
        decreases args,
    {
        let ghost vs = view_values(args@);
        proof {
            lemma_view_values_index(args@);
            assert(vs.skip(0) =~= vs);
        }
        let mut i: usize = 0;
        while i < args.len()
            invariant
                0 <= i <= args@.len(),
                vs == view_values(args@),
                vs.len() == args@.len(),
                forall|k: int| 0 <= k < args@.len() ==> #[trigger] vs[k] == view_value(args@[k]),
                spec_sql_errors(vs) == spec_sql_errors(vs.skip(i as int)),
            decreases args@.len() - i,
        {
            let e = args[i].sql_conversion_error();
            assert(vs.skip(i as int)[0] == vs[i as int]);
            assert(vs.skip(i as int).skip(1) =~= vs.skip(i + 1));
            if e.is_some() {
                return e;
            }
            i = i + 1;
        }
        assert(vs.skip(i as int) =~= Seq::<SpecValue>::empty());
        None
    }

    /// The SQL form of this value (see `spec_to_sql`); it has one where
    /// `sql_conversion_error` finds no error.
    fn to_sql_expr(&self) -> (res: SqlExpr)
        requires
            spec_sql_error(self@) is None,
        ensures
            res@ == spec_to_sql(self@),
        decreases self,
    {
        match self {
            Value::Integer(n) => SqlExpr::Value(SqlValue::BigInt(*n)),
            Value::Float(t) => SqlExpr::Value(SqlValue::Double(t.clone())),
            Value::String(t) => SqlExpr::Value(SqlValue::String(t.clone())),
            Value::Identifier(t) => SqlExpr::Column(t.clone()),
            Value::Accessor(_, f) => {
                proof {
                    reveal_with_fuel(view_value, 2);
                }
                match &**f {
                    Value::Identifier(t) => SqlExpr::Column(t.clone()),
                    _ => SqlExpr::Column(String::new()),
                }
            },
            Value::UnaryOp(op, a) => {
                let inner = a.to_sql_expr();
                if *op == UnaryOperator::Negate {
                    proof {
                        reveal_with_fuel(view_sql_expr, 2);
                    }
                    SqlExpr::Binary(
                        Box::new(SqlExpr::Value(SqlValue::BigInt(-1))),
                        SqlBinOper::Mul,
                        Box::new(inner),
                    )
                } else {
                    SqlExpr::Unary(SqlUnOper::Not, Box::new(inner))
                }
            },
            Value::BinaryOp(op, a, b) => {
                let l = a.to_sql_expr();
                let r = b.to_sql_expr();
                SqlExpr::Binary(Box::new(l), op.to_sql_oper(), Box::new(r))
            },
            Value::FunctionCall(name, args) => {
                let mut out: Vec<SqlExpr> = Vec::new();
                Self::to_sql_exprs(args, &mut out);
                proof {
                    assert(Seq::<SpecSqlExpr>::empty() + spec_to_sql_all(view_values(args@))
                        =~= spec_to_sql_all(view_values(args@)));
                }
                SqlExpr::FunctionCall(name.clone(), out)
            },
            Value::MethodCall(recv, method, args) => {
                let mut out: Vec<SqlExpr> = Vec::new();
                let first = recv.to_sql_expr();
                proof {
                    lemma_view_sql_exprs_push(out@, first);
                    assert(Seq::<SqlExpr>::empty().push(first) =~= seq![first]);
                }
                out.push(first);
                Self::to_sql_exprs(args, &mut out);
                SqlExpr::FunctionCall(method.clone(), out)
            },
        }
    }

    /// Appends the SQL forms of `args` to `out`.
    fn to_sql_exprs(args: &Vec<Value>, out: &mut Vec<SqlExpr>)
        requires
            spec_sql_errors(view_values(args@)) is None,
        ensures
            view_sql_exprs(final(out)@) == view_sql_exprs(old(out)@) + spec_to_sql_all(
                view_values(args@),
            ),
        decreases args,
    {
        let ghost vs = view_values(args@);
        let ghost start = view_sql_exprs(out@);
        proof {
            lemma_view_values_index(args@);
            lemma_sql_errors_none(vs);
            assert(vs.take(0) =~= Seq::<SpecValue>::empty());
            assert(start + Seq::<SpecSqlExpr>::empty() =~= start);
        }
        let mut i: usize = 0;
        while i < args.len()
            invariant
                0 <= i <= args@.len(),
                vs == view_values(args@),
                vs.len() == args@.len(),
                forall|k: int| 0 <= k < args@.len() ==> #[trigger] vs[k] == view_value(args@[k]),
                forall|k: int| 0 <= k < vs.len() ==> #[trigger] spec_sql_error(vs[k]) is None,
                view_sql_exprs(out@) == start + spec_to_sql_all(vs.take(i as int)),
            decreases args@.len() - i,
        {
            assert(spec_sql_error(vs[i as int]) is None);
            let e = args[i].to_sql_expr();
            proof {
                lemma_view_sql_exprs_push(out@, e);
                assert(vs.take(i + 1).drop_last() =~= vs.take(i as int));
                assert(vs.take(i + 1).last() == vs[i as int]);
                assert(start + spec_to_sql_all(vs.take(i + 1)) =~= (start + spec_to_sql_all(
                    vs.take(i as int),
                )).push(spec_to_sql(vs[i as int])));
            }
            out.push(e);
            i = i + 1;
        }
        assert(vs.take(i as int) =~= vs);
    }
}

/// Conversion of a parsed value to the SQL expression that a `sea_query::SimpleExpr` is
/// built from.
pub trait ToSeaQuery where Self: Sized {
    /// Whether the value has an SQL form.
    spec fn has_sql_form(&self) -> bool;

    /// The SQL form of the value.
    spec fn sql_form(&self) -> SpecSqlExpr;

    /// The SQL form of the value, where it has one.
    fn to_sea_query(&self) -> (res: SqlExpr)
        requires
            self.has_sql_form(),
        ensures
            res@ == self.sql_form(),
    ;
}

impl ToSeaQuery for Value {
    /// A value has an SQL form where converting it meets no error: every accessor names its
    /// field with an identifier, and no `~` is applied.
    open spec fn has_sql_form(&self) -> bool {
        spec_sql_error(self@) is None
    }

    open spec fn sql_form(&self) -> SpecSqlExpr {
        spec_to_sql(self@)
    }

    fn to_sea_query(&self) -> (res: SqlExpr) {
        self.to_sql_expr()
    }
}

/// How deep the operators of an SQL expression nest.
pub open spec fn sql_depth(e: SpecSqlExpr) -> nat
    decreases e,
{
    match e {
        SpecSqlExpr::Unary(_, a) => 1 + sql_depth(*a),
        SpecSqlExpr::Binary(a, _, b) => 1 + if sql_depth(*a) >= sql_depth(*b) {
            sql_depth(*a)
        } else {
            sql_depth(*b)
        },
        _ => 0,
    }
}

/// The SQL forms of a list of values: one for each, in order.
pub proof fn lemma_sql_all(vs: Seq<SpecValue>)
    ensures
        spec_to_sql_all(vs).len() == vs.len(),
        forall|i: int| 0 <= i < vs.len() ==> #[trigger] spec_to_sql_all(vs)[i] == spec_to_sql(vs[i]),
    decreases vs.len(),
{
    if vs.len() > 0 {
        lemma_sql_all(vs.drop_last());
    }
}

/// A list of values converts without error exactly when each of them does; where one of
/// them fails, the error is that of the first one that fails.
pub proof fn lemma_sql_errors_each(vs: Seq<SpecValue>)
    ensures
        spec_sql_errors(vs) is None <==> forall|i: int|
            0 <= i < vs.len() ==> #[trigger] spec_sql_error(vs[i]) is None,
        vs.len() > 0 && spec_sql_error(vs[0]) is Some ==> spec_sql_errors(vs) == spec_sql_error(vs[0]),
    decreases vs.len(),
{
    lemma_sql_errors_none(vs);
    if vs.len() > 0 {
        lemma_sql_errors_each(vs.skip(1));
        if forall|i: int| 0 <= i < vs.len() ==> #[trigger] spec_sql_error(vs[i]) is None {
            assert forall|i: int| 0 <= i < vs.skip(1).len() implies #[trigger] spec_sql_error(
                vs.skip(1)[i],
            ) is None by {
                assert(vs.skip(1)[i] == vs[i + 1]);
            }
            assert(spec_sql_error(vs[0]) is None);
        }
    }
}

/// Literals and names: an integer is an SQL big integer, a float a double with the same
/// text, a string an SQL string, an identifier the column of that name, and an accessor
/// whose field is an identifier the column of the field's name, whatever its base.
pub proof fn law_sql_leaves(n: int, t: Seq<char>, base: SpecValue)
    ensures
        spec_to_sql(SpecValue::Integer(n)) == SpecSqlExpr::Value(SpecSqlValue::BigInt(n)),
        spec_to_sql(SpecValue::Float(t)) == SpecSqlExpr::Value(SpecSqlValue::Double(t)),
        spec_to_sql(SpecValue::String(t)) == SpecSqlExpr::Value(SpecSqlValue::String(t)),
        spec_to_sql(SpecValue::Identifier(t)) == SpecSqlExpr::Column(t),
        spec_to_sql(
            SpecValue::Accessor(Box::new(base), Box::new(SpecValue::Identifier(t))),
        ) == SpecSqlExpr::Column(t),
        spec_sql_error(SpecValue::Integer(n)) is None,
        spec_sql_error(SpecValue::Float(t)) is None,
        spec_sql_error(SpecValue::String(t)) is None,
        spec_sql_error(SpecValue::Identifier(t)) is None,
{
}

/// A negation, of any operand, is `-1 * x` in SQL, where `x` is the operand's SQL form; so
/// it is never the operand's SQL form itself.
pub proof fn law_sql_negate(v: SpecValue)
    ensures
        spec_to_sql(SpecValue::UnaryOp(UnaryOperator::Negate, Box::new(v))) == SpecSqlExpr::Binary(
            Box::new(SpecSqlExpr::Value(SpecSqlValue::BigInt(-1))),
            SqlBinOper::Mul,
            Box::new(spec_to_sql(v)),
        ),
        spec_to_sql(SpecValue::UnaryOp(UnaryOperator::Negate, Box::new(v))) != spec_to_sql(v),
{
    let x = spec_to_sql(v);
    let neg = SpecSqlExpr::Binary(
        Box::new(SpecSqlExpr::Value(SpecSqlValue::BigInt(-1))),
        SqlBinOper::Mul,
        Box::new(x),
    );
    assert(sql_depth(neg) > sql_depth(x));
}

/// A logical not, of any operand, is SQL `NOT x`, where `x` is the operand's SQL form; so
/// it is never the operand's SQL form itself.
pub proof fn law_sql_not(v: SpecValue)
    ensures
        spec_to_sql(SpecValue::UnaryOp(UnaryOperator::Not, Box::new(v))) == SpecSqlExpr::Unary(
            SqlUnOper::Not,
            Box::new(spec_to_sql(v)),
        ),
        spec_to_sql(SpecValue::UnaryOp(UnaryOperator::Not, Box::new(v))) != spec_to_sql(v),
{
    let x = spec_to_sql(v);
    assert(sql_depth(SpecSqlExpr::Unary(SqlUnOper::Not, Box::new(x))) > sql_depth(x));
}

/// Each binary operator has its SQL operator: `+ - * / %` are `Add Sub Mul Div Mod`, the
/// comparisons `Equal NotEqual SmallerThan SmallerThanOrEqual GreaterThan
/// GreaterThanOrEqual`, and `&& ||` are `And Or`; a binary expression is that operator
/// between the SQL forms of its operands, left then right.
pub proof fn law_sql_binary(op: BinaryOperator, a: SpecValue, b: SpecValue)
    ensures
        spec_to_sql(SpecValue::BinaryOp(op, Box::new(a), Box::new(b))) == SpecSqlExpr::Binary(
            Box::new(spec_to_sql(a)),
            spec_sql_oper(op),
            Box::new(spec_to_sql(b)),
        ),
        spec_sql_oper(BinaryOperator::Add) == SqlBinOper::Add,
        spec_sql_oper(BinaryOperator::Subtract) == SqlBinOper::Sub,
        spec_sql_oper(BinaryOperator::Multiply) == SqlBinOper::Mul,
        spec_sql_oper(BinaryOperator::Divide) == SqlBinOper::Div,
        spec_sql_oper(BinaryOperator::Modulo) == SqlBinOper::Mod,
        spec_sql_oper(BinaryOperator::Equal) == SqlBinOper::Equal,
        spec_sql_oper(BinaryOperator::NotEqual) == SqlBinOper::NotEqual,
        spec_sql_oper(BinaryOperator::Less) == SqlBinOper::SmallerThan,
        spec_sql_oper(BinaryOperator::LessEqual) == SqlBinOper::SmallerThanOrEqual,
        spec_sql_oper(BinaryOperator::Greater) == SqlBinOper::GreaterThan,
        spec_sql_oper(BinaryOperator::GreaterEqual) == SqlBinOper::GreaterThanOrEqual,
        spec_sql_oper(BinaryOperator::And) == SqlBinOper::And,
        spec_sql_oper(BinaryOperator::Or) == SqlBinOper::Or,
{
}

/// A function call is the SQL function of that name applied to the SQL forms of its
/// arguments, one for each, in order.
pub proof fn law_sql_function_call(name: Seq<char>, args: Seq<SpecValue>)
    ensures
        spec_to_sql(SpecValue::FunctionCall(name, args)) matches SpecSqlExpr::FunctionCall(n, xs)
            && n == name && xs.len() == args.len() && forall|i: int|
            0 <= i < args.len() ==> #[trigger] xs[i] == spec_to_sql(args[i]),
{
    lemma_sql_all(args);
}

/// A method call is the SQL function of the method's name applied first to the receiver's
/// SQL form and then to the SQL forms of the arguments, in order.
pub proof fn law_sql_method_call(r: SpecValue, m: Seq<char>, args: Seq<SpecValue>)
    ensures
        spec_to_sql(SpecValue::MethodCall(Box::new(r), m, args)) matches SpecSqlExpr::FunctionCall(
            n,
            xs,
        ) && n == m && xs.len() == args.len() + 1 && xs[0] == spec_to_sql(r) && forall|i: int|
            0 <= i < args.len() ==> #[trigger] xs[i + 1] == spec_to_sql(args[i]),
{
    lemma_sql_all(args);
    let xs = seq![spec_to_sql(r)] + spec_to_sql_all(args);
    assert forall|i: int| 0 <= i < args.len() implies #[trigger] xs[i + 1] == spec_to_sql(args[i]) by {
        assert(xs[i + 1] == spec_to_sql_all(args)[i]);
    }
}

/// A composite value has an SQL form exactly when its parts do: a method call when its
/// receiver and all its arguments do, a function call when all its arguments do, a binary
/// expression when both operands do, a prefix expression when its operand does and the
/// operator is not `~`, and an accessor exactly when its field is an identifier, whatever
/// its base. The error reported is that of the first part to fail: the receiver before
/// the arguments, the left operand before the right, the operand before the operator.
pub proof fn law_sql_error_parts(
    r: SpecValue,
    a: SpecValue,
    b: SpecValue,
    name: Seq<char>,
    args: Seq<SpecValue>,
    bop: BinaryOperator,
    uop: UnaryOperator,
)
    ensures
        spec_sql_error(SpecValue::MethodCall(Box::new(r), name, args)) is None <==> (spec_sql_error(
            r,
        ) is None && forall|i: int| 0 <= i < args.len() ==> #[trigger] spec_sql_error(args[i]) is None),
        spec_sql_error(r) is Some ==> spec_sql_error(SpecValue::MethodCall(Box::new(r), name, args))
            == spec_sql_error(r),
        spec_sql_error(SpecValue::FunctionCall(name, args)) is None <==> forall|i: int|
            0 <= i < args.len() ==> #[trigger] spec_sql_error(args[i]) is None,
        spec_sql_error(SpecValue::BinaryOp(bop, Box::new(a), Box::new(b))) is None <==> (
        spec_sql_error(a) is None && spec_sql_error(b) is None),
        spec_sql_error(a) is Some ==> spec_sql_error(SpecValue::BinaryOp(bop, Box::new(a), Box::new(b)))
            == spec_sql_error(a),
        spec_sql_error(SpecValue::UnaryOp(uop, Box::new(a))) is None <==> (spec_sql_error(a) is None
            && uop != UnaryOperator::BitwiseNot),
        spec_sql_error(a) is Some ==> spec_sql_error(SpecValue::UnaryOp(uop, Box::new(a)))
            == spec_sql_error(a),
        spec_sql_error(SpecValue::UnaryOp(UnaryOperator::BitwiseNot, Box::new(a))) is Some,
        spec_sql_error(SpecValue::Accessor(Box::new(a), Box::new(b))) is None <==> b is Identifier,
        !(b is Identifier) ==> spec_sql_error(SpecValue::Accessor(Box::new(a), Box::new(b))) == Some(
            SqlConversionError::AccessorFieldNotIdentifier,
        ),
{
    lemma_sql_errors_each(args);
}

} // verus!
