//! Runtime values and the arithmetic of the expression language.
//!
//! Numbers are 64-bit integers. Arithmetic never fails: a result that does
//! not fit saturates at the nearest limit, and operands of the wrong kind
//! give `Void`.

use vstd::prelude::*;
use crate::typeregister::Type;

verus! {

/// A value that a property can hold or an expression can produce.
#[derive(Debug, PartialEq)]
pub enum Value {
    /// The absence of a value: what an invalid expression evaluates to.
    Void,
    /// An integer quantity (lengths, counts, durations, indices).
    Number(i64),
    /// A text.
    String(String),
    /// A truth value.
    Bool(bool),
    /// A colour, one byte per channel, alpha first.
    Color(u32),
    /// The location of an image.
    Resource(String),
    /// An image that is embedded in the program, by the number of its
    /// record in the document.
    EmbeddedResource(usize),
}

/// The mathematical content of a [`Value`].
pub enum ValueModel {
    Void,
    Number(int),
    String(Seq<char>),
    Bool(bool),
    Color(u32),
    Resource(Seq<char>),
    EmbeddedResource(usize),
}

impl View for Value {
    type V = ValueModel;

    open spec fn view(&self) -> ValueModel {
        match *self {
            Value::Void => ValueModel::Void,
            Value::Number(n) => ValueModel::Number(n as int),
            Value::String(s) => ValueModel::String(s@),
            Value::Bool(b) => ValueModel::Bool(b),
            Value::Color(c) => ValueModel::Color(c),
            Value::Resource(s) => ValueModel::Resource(s@),
            Value::EmbeddedResource(i) => ValueModel::EmbeddedResource(i),
        }
    }
}

/// The value that a property of the given type has before anything is
/// written into it.
pub open spec fn default_value(ty: Type) -> ValueModel {
    match ty {
        Type::Float32 => ValueModel::Number(0),
        Type::Int32 => ValueModel::Number(0),
        Type::String => ValueModel::String(Seq::empty()),
        Type::Color => ValueModel::Color(0),
        Type::Image => ValueModel::Resource(Seq::empty()),
        Type::Bool => ValueModel::Bool(false),
        _ => ValueModel::Void,
    }
}

/// The value that a property of the given type starts with.
pub fn default_for(ty: Type) -> (v: Value)
    ensures
        v@ == default_value(ty),
{
    match ty {
        Type::Float32 => Value::Number(0),
        Type::Int32 => Value::Number(0),
        Type::String => Value::String(String::new()),
        Type::Color => Value::Color(0),
        Type::Image => Value::Resource(String::new()),
        Type::Bool => Value::Bool(false),
        _ => Value::Void,
    }
}

/// The operators that take two operands.
#[derive(Clone, Copy, Debug, PartialEq, Eq, Structural)]
pub enum BinaryOperator {
    Add,
    Sub,
    Mul,
    Div,
    Equal,
    NotEqual,
    Less,
    Greater,
    LessOrEqual,
    GreaterOrEqual,
    And,
    Or,
}

/// The operators that take one operand.
#[derive(Clone, Copy, Debug, PartialEq, Eq, Structural)]
pub enum UnaryOperator {
    /// Logical negation of a `Bool`.
    Not,
    /// Arithmetic negation of a `Number`.
    Negate,
}

/// The nearest 64-bit integer to `x`.
pub open spec fn saturate(x: int) -> int {
    if x < i64::MIN {
        i64::MIN as int
    } else if x > i64::MAX {
        i64::MAX as int
    } else {
        x
    }
}

/// The quotient of `x` by `d` rounded towards zero; zero when `d` is zero.
pub open spec fn quotient(x: int, d: int) -> int {
    if d == 0 {
        0
    } else if x >= 0 && d > 0 {
        x / d
    } else if x < 0 && d < 0 {
        (-x) / (-d)
    } else if x < 0 {
        -((-x) / d)
    } else {
        -(x / (-d))
    }
}

/// What a binary operator yields on two values.
pub open spec fn binary_result(op: BinaryOperator, a: ValueModel, b: ValueModel) -> ValueModel {
    match (op, a, b) {
        (BinaryOperator::Add, ValueModel::Number(x), ValueModel::Number(y)) => ValueModel::Number(
            saturate(x + y),
        ),
        (BinaryOperator::Add, ValueModel::String(s), ValueModel::String(t)) => ValueModel::String(
            s + t,
        ),
        (BinaryOperator::Sub, ValueModel::Number(x), ValueModel::Number(y)) => ValueModel::Number(
            saturate(x - y),
        ),
        (BinaryOperator::Mul, ValueModel::Number(x), ValueModel::Number(y)) => ValueModel::Number(
            saturate(x * y),
        ),
        (BinaryOperator::Div, ValueModel::Number(x), ValueModel::Number(y)) => ValueModel::Number(
            saturate(quotient(x, y)),
        ),
        (BinaryOperator::Equal, _, _) => ValueModel::Bool(a == b),
        (BinaryOperator::NotEqual, _, _) => ValueModel::Bool(a != b),
        (BinaryOperator::Less, ValueModel::Number(x), ValueModel::Number(y)) => ValueModel::Bool(
            x < y,
        ),
        (BinaryOperator::Greater, ValueModel::Number(x), ValueModel::Number(y)) => ValueModel::Bool(
            x > y,
        ),
        (
            BinaryOperator::LessOrEqual,
            ValueModel::Number(x),
            ValueModel::Number(y),
        ) => ValueModel::Bool(x <= y),
        (
            BinaryOperator::GreaterOrEqual,
            ValueModel::Number(x),
            ValueModel::Number(y),
        ) => ValueModel::Bool(x >= y),
        (BinaryOperator::And, ValueModel::Bool(x), ValueModel::Bool(y)) => ValueModel::Bool(x && y),
        (BinaryOperator::Or, ValueModel::Bool(x), ValueModel::Bool(y)) => ValueModel::Bool(x || y),
        _ => ValueModel::Void,
    }
}

/// What a unary operator yields on a value.
pub open spec fn unary_result(op: UnaryOperator, a: ValueModel) -> ValueModel {
    match (op, a) {
        (UnaryOperator::Not, ValueModel::Bool(b)) => ValueModel::Bool(!b),
        (UnaryOperator::Negate, ValueModel::Number(x)) => ValueModel::Number(saturate(-x)),
        _ => ValueModel::Void,
    }
}

/// Whether a value selects the first branch of a conditional.
pub open spec fn is_true(v: ValueModel) -> bool {
    v == ValueModel::Bool(true)
}

proof fn lemma_product_sign(x: int, y: int)
    ensures
        (x > 0 && y > 0) || (x < 0 && y < 0) ==> x * y > 0,
        (x > 0 && y < 0) || (x < 0 && y > 0) ==> x * y < 0,
        x == 0 || y == 0 ==> x * y == 0,
{
    assert((x > 0 && y > 0) || (x < 0 && y < 0) ==> x * y > 0) by (nonlinear_arith);
    assert((x > 0 && y < 0) || (x < 0 && y > 0) ==> x * y < 0) by (nonlinear_arith);
    assert(x == 0 || y == 0 ==> x * y == 0) by (nonlinear_arith);
}

/// The saturating sum of two numbers.
pub fn add_numbers(x: i64, y: i64) -> (r: i64)
    ensures
        r == saturate(x + y),
{
    match x.checked_add(y) {
        Some(v) => v,
        None => if x > 0 {
            i64::MAX
        } else {
            i64::MIN
        },
    }
}

/// The saturating difference of two numbers.
pub fn sub_numbers(x: i64, y: i64) -> (r: i64)
    ensures
        r == saturate(x - y),
{
    match x.checked_sub(y) {
        Some(v) => v,
        None => if x >= 0 {
            i64::MAX
        } else {
            i64::MIN
        },
    }
}

/// The saturating product of two numbers.
pub fn mul_numbers(x: i64, y: i64) -> (r: i64)
    ensures
        r == saturate(x * y),
{
    proof {
        lemma_product_sign(x as int, y as int);
    }
    match x.checked_mul(y) {
        Some(v) => v,
        None => if (x > 0) == (y > 0) {
            i64::MAX
        } else {
            i64::MIN
        },
    }
}

/// The quotient of two numbers rounded towards zero, saturating; zero when
/// the divisor is zero.
pub fn div_numbers(x: i64, y: i64) -> (r: i64)
    ensures
        r == saturate(quotient(x as int, y as int)),
{
    if y == 0 {
        0
    } else {
        match x.checked_div(y) {
            Some(v) => v,
            None => i64::MAX,
        }
    }
}

/// A copy of a value.
pub fn clone_value(v: &Value) -> (r: Value)
    ensures
        r == *v,
{
    match v {
        Value::Void => Value::Void,
        Value::Number(n) => Value::Number(*n),
        Value::String(s) => Value::String(s.clone()),
        Value::Bool(b) => Value::Bool(*b),
        Value::Color(c) => Value::Color(*c),
        Value::Resource(s) => Value::Resource(s.clone()),
        Value::EmbeddedResource(i) => Value::EmbeddedResource(*i),
    }
}

/// Whether two values have the same content.
pub fn values_equal(a: &Value, b: &Value) -> (r: bool)
    ensures
        r == (a@ == b@),
{
    match (a, b) {
        (Value::Void, Value::Void) => true,
        (Value::Number(x), Value::Number(y)) => *x == *y,
        (Value::String(s), Value::String(t)) => *s == *t,
        (Value::Bool(x), Value::Bool(y)) => *x == *y,
        (Value::Color(x), Value::Color(y)) => *x == *y,
        (Value::Resource(s), Value::Resource(t)) => *s == *t,
        (Value::EmbeddedResource(x), Value::EmbeddedResource(y)) => *x == *y,
        _ => false,
    }
}

/// Applies a binary operator to two values.
pub fn apply_binary(op: BinaryOperator, a: &Value, b: &Value) -> (r: Value)
    ensures
        r@ == binary_result(op, a@, b@),
{
    match op {
        BinaryOperator::Add => match (a, b) {
            (Value::Number(x), Value::Number(y)) => Value::Number(add_numbers(*x, *y)),
            (Value::String(s), Value::String(t)) => Value::String(s.clone().concat(t.as_str())),
            _ => Value::Void,
        },
        BinaryOperator::Sub => match (a, b) {
            (Value::Number(x), Value::Number(y)) => Value::Number(sub_numbers(*x, *y)),
            _ => Value::Void,
        },
        BinaryOperator::Mul => match (a, b) {
            (Value::Number(x), Value::Number(y)) => Value::Number(mul_numbers(*x, *y)),
            _ => Value::Void,
        },
        BinaryOperator::Div => match (a, b) {
            (Value::Number(x), Value::Number(y)) => Value::Number(div_numbers(*x, *y)),
            _ => Value::Void,
        },
        BinaryOperator::Equal => Value::Bool(values_equal(a, b)),
        BinaryOperator::NotEqual => Value::Bool(!values_equal(a, b)),
        BinaryOperator::Less => match (a, b) {
            (Value::Number(x), Value::Number(y)) => Value::Bool(*x < *y),
            _ => Value::Void,
        },
        BinaryOperator::Greater => match (a, b) {
            (Value::Number(x), Value::Number(y)) => Value::Bool(*x > *y),
            _ => Value::Void,
        },
        BinaryOperator::LessOrEqual => match (a, b) {
            (Value::Number(x), Value::Number(y)) => Value::Bool(*x <= *y),
            _ => Value::Void,
        },
        BinaryOperator::GreaterOrEqual => match (a, b) {
            (Value::Number(x), Value::Number(y)) => Value::Bool(*x >= *y),
            _ => Value::Void,
        },
        BinaryOperator::And => match (a, b) {
            (Value::Bool(x), Value::Bool(y)) => Value::Bool(*x && *y),
            _ => Value::Void,
        },
        BinaryOperator::Or => match (a, b) {
            (Value::Bool(x), Value::Bool(y)) => Value::Bool(*x || *y),
            _ => Value::Void,
        },
    }
}

/// Applies a unary operator to a value.
pub fn apply_unary(op: UnaryOperator, a: &Value) -> (r: Value)
    ensures
        r@ == unary_result(op, a@),
{
    match op {
        UnaryOperator::Not => match a {
            Value::Bool(b) => Value::Bool(!*b),
            _ => Value::Void,
        },
        UnaryOperator::Negate => match a {
            Value::Number(x) => Value::Number(sub_numbers(0, *x)),
            _ => Value::Void,
        },
    }
}

} // verus!
