use vstd::prelude::*;

verus! {

/// Binary operators, from the loosest-binding (`||`) to the tightest (`*`, `/`, `%`).
#[derive(Debug, Clone, Copy, PartialEq, Eq, Structural)]
pub enum BinaryOperator {
    // Arithmetic
    Add,
    Subtract,
    Multiply,
    Divide,
    Modulo,
    // Comparison
    Equal,
    NotEqual,
    Less,
    LessEqual,
    Greater,
    GreaterEqual,
    // Logical
    And,
    Or,
}

/// Prefix operators.
#[derive(Debug, Clone, Copy, PartialEq, Eq, Structural)]
pub enum UnaryOperator {
    Not,
    Negate,
    BitwiseNot,
}

impl BinaryOperator {
    /// The operator as it is written in an expression.
    pub open spec fn spec_symbol(self) -> Seq<char> {
        match self {
            BinaryOperator::Add => seq!['+'],
            BinaryOperator::Subtract => seq!['-'],
            BinaryOperator::Multiply => seq!['*'],
            BinaryOperator::Divide => seq!['/'],
            BinaryOperator::Modulo => seq!['%'],
            BinaryOperator::Equal => seq!['=', '='],
            BinaryOperator::NotEqual => seq!['!', '='],
            BinaryOperator::Less => seq!['<'],
            BinaryOperator::LessEqual => seq!['<', '='],
            BinaryOperator::Greater => seq!['>'],
            BinaryOperator::GreaterEqual => seq!['>', '='],
            BinaryOperator::And => seq!['&', '&'],
            BinaryOperator::Or => seq!['|', '|'],
        }
    }

    /// The operator as it is written in an expression, such as `"<="`.
    pub fn to_string(&self) -> (s: String)
        ensures
            s@ == self.spec_symbol(),
    {
        let lit: &str = match self {
            BinaryOperator::Add => "+",
            BinaryOperator::Subtract => "-",
            BinaryOperator::Multiply => "*",
            BinaryOperator::Divide => "/",
            BinaryOperator::Modulo => "%",
            BinaryOperator::Equal => "==",
            BinaryOperator::NotEqual => "!=",
            BinaryOperator::Less => "<",
            BinaryOperator::LessEqual => "<=",
            BinaryOperator::Greater => ">",
            BinaryOperator::GreaterEqual => ">=",
            BinaryOperator::And => "&&",
            BinaryOperator::Or => "||",
        };
        proof {
            reveal_strlit("+");
            reveal_strlit("-");
            reveal_strlit("*");
            reveal_strlit("/");
            reveal_strlit("%");
            reveal_strlit("==");
            reveal_strlit("!=");
            reveal_strlit("<");
            reveal_strlit("<=");
            reveal_strlit(">");
            reveal_strlit(">=");
            reveal_strlit("&&");
            reveal_strlit("||");
        }
        String::from_str(lit)
    }
}

impl UnaryOperator {
    /// The operator as it is written in an expression.
    pub open spec fn spec_symbol(self) -> Seq<char> {
        match self {
            UnaryOperator::Not => seq!['!'],
            UnaryOperator::Negate => seq!['-'],
            UnaryOperator::BitwiseNot => seq!['~'],
        }
    }

    /// The operator as it is written in an expression, such as `"!"`.
    pub fn to_string(&self) -> (s: String)
        ensures
            s@ == self.spec_symbol(),
    {
        let lit: &str = match self {
            UnaryOperator::Not => "!",
            UnaryOperator::Negate => "-",
            UnaryOperator::BitwiseNot => "~",
        };
        proof {
            reveal_strlit("!");
            reveal_strlit("-");
            reveal_strlit("~");
        }
        String::from_str(lit)
    }
}

/// The mathematical model of a parsed expression.
pub enum SpecValue {
    Integer(int),
    Float(Seq<char>),
    String(Seq<char>),
    Identifier(Seq<char>),
    Accessor(Box<SpecValue>, Box<SpecValue>),
    FunctionCall(Seq<char>, Seq<SpecValue>),
    MethodCall(Box<SpecValue>, Seq<char>, Seq<SpecValue>),
    BinaryOp(BinaryOperator, Box<SpecValue>, Box<SpecValue>),
    UnaryOp(UnaryOperator, Box<SpecValue>),
}

/// A parsed expression.
///
/// A floating-point literal is kept as the text it was written with (for instance
/// `"1.5e-10"` or `"-2.5"`); that text is a valid Rust `f64` literal.
#[derive(Debug, PartialEq)]
pub enum Value {
    /// Integer literal (e.g., 42, -100)
    Integer(i64),
    /// Floating-point literal, as written (e.g., "3.14", "-2.5e-3")
    Float(String),
    /// String literal, with its escapes resolved
    String(String),
    /// Variable identifier (e.g., user, profile)
    Identifier(String),
    /// Accessor chain: object.field or object[index]
    Accessor(Box<Value>, Box<Value>),
    /// Function call with arguments (e.g., sum(1, 2, 3))
    FunctionCall(String, Vec<Value>),
    /// Method call on an accessor (e.g., data:transform())
    MethodCall(Box<Value>, String, Vec<Value>),
    BinaryOp(BinaryOperator, Box<Value>, Box<Value>),
    UnaryOp(UnaryOperator, Box<Value>),
}

/// The model of each value of a sequence.
pub open spec fn view_values(vs: Seq<Value>) -> Seq<SpecValue>
    decreases vs,
{
    if vs.len() == 0 {
        Seq::empty()
    } else {
        view_values(vs.drop_last()).push(view_value(vs.last()))
    }
}

/// The model of a value.
pub open spec fn view_value(v: Value) -> SpecValue
    decreases v,
{
    match v {
        Value::Integer(n) => SpecValue::Integer(n as int),
        Value::Float(t) => SpecValue::Float(t@),
        Value::String(t) => SpecValue::String(t@),
        Value::Identifier(t) => SpecValue::Identifier(t@),
        Value::Accessor(a, b) => SpecValue::Accessor(
            Box::new(view_value(*a)),
            Box::new(view_value(*b)),
        ),
        Value::FunctionCall(n, args) => SpecValue::FunctionCall(n@, view_values(args@)),
        Value::MethodCall(r, n, args) => SpecValue::MethodCall(
            Box::new(view_value(*r)),
            n@,
            view_values(args@),
        ),
        Value::BinaryOp(op, a, b) => SpecValue::BinaryOp(
            op,
            Box::new(view_value(*a)),
            Box::new(view_value(*b)),
        ),
        Value::UnaryOp(op, a) => SpecValue::UnaryOp(op, Box::new(view_value(*a))),
    }
}

impl View for Value {
    type V = SpecValue;

    open spec fn view(&self) -> SpecValue {
        view_value(*self)
    }
}

/// Every integer literal in `v` fits in an `i64`.
pub open spec fn integers_fit(v: SpecValue) -> bool
    decreases v,
{
    match v {
        SpecValue::Integer(n) => i64::MIN <= n <= i64::MAX,
        SpecValue::Float(_) => true,
        SpecValue::String(_) => true,
        SpecValue::Identifier(_) => true,
        SpecValue::Accessor(a, b) => integers_fit(*a) && integers_fit(*b),
        SpecValue::FunctionCall(_, args) => all_integers_fit(args),
        SpecValue::MethodCall(r, _, args) => integers_fit(*r) && all_integers_fit(args),
        SpecValue::BinaryOp(_, a, b) => integers_fit(*a) && integers_fit(*b),
        SpecValue::UnaryOp(_, a) => integers_fit(*a),
    }
}

/// Every integer literal in the values `vs` fits in an `i64`.
pub open spec fn all_integers_fit(vs: Seq<SpecValue>) -> bool
    decreases vs,
{
    if vs.len() == 0 {
        true
    } else {
        all_integers_fit(vs.drop_last()) && integers_fit(vs.last())
    }
}

impl Clone for Value {
    /// A copy with the same model.
    fn clone(&self) -> (res: Self)
        ensures
            res@ == self@,
        decreases self,
    {
        match self {
            Value::Integer(n) => Value::Integer(*n),
            Value::Float(t) => Value::Float(t.clone()),
            Value::String(t) => Value::String(t.clone()),
            Value::Identifier(t) => Value::Identifier(t.clone()),
            Value::Accessor(a, b) => Value::Accessor(Box::new((**a).clone()), Box::new((**b).clone())),
            Value::FunctionCall(n, args) => Value::FunctionCall(n.clone(), Value::clone_all(args)),
            Value::MethodCall(r, n, args) => Value::MethodCall(
                Box::new((**r).clone()),
                n.clone(),
                Value::clone_all(args),
            ),
            Value::BinaryOp(op, a, b) => Value::BinaryOp(
                *op,
                Box::new((**a).clone()),
                Box::new((**b).clone()),
            ),
            Value::UnaryOp(op, a) => Value::UnaryOp(*op, Box::new((**a).clone())),
        }
    }
}

impl Value {
    /// Copies of the values of `vs`, in order.
    fn clone_all(vs: &Vec<Value>) -> (res: Vec<Value>)
        ensures
            view_values(res@) == view_values(vs@),
        decreases vs,
    {
        let mut out: Vec<Value> = Vec::new();
        let mut i: usize = 0;
        assert(vs@.take(0) =~= Seq::<Value>::empty());
        while i < vs.len()
            invariant
                0 <= i <= vs@.len(),
                view_values(out@) == view_values(vs@.take(i as int)),
            decreases vs@.len() - i,
        {
            let e = vs[i].clone();
            assert(out@.push(e).drop_last() =~= out@);
            assert(vs@.take(i + 1).drop_last() =~= vs@.take(i as int));
            out.push(e);
            i = i + 1;
        }
        assert(vs@.take(i as int) =~= vs@);
        out
    }
}

} // verus!
