//! Expressions, the functions they call, and their mathematical models.
use vstd::prelude::*;

verus! {

/// The type of a value, as far as function signatures need it.
#[derive(Clone, Copy, Debug, PartialEq, Eq, Structural)]
pub enum DataType {
    Null,
    Boolean,
    Int32,
    Int64,
    Utf8,
}

/// A binary operator.
#[derive(Clone, Copy, Debug, PartialEq, Eq, Structural)]
pub enum Operator {
    Eq,
    NotEq,
    Lt,
    LtEq,
    Gt,
    GtEq,
    And,
    Or,
}

/// A literal value.
#[derive(Clone, Debug, PartialEq)]
pub enum ScalarValue {
    Null,
    Boolean(bool),
    Int32(i32),
    Int64(i64),
    Utf8(String),
}

/// A function definition: its name and signature. The code that computes
/// the function is not part of it and is never written out.
#[derive(Clone, Debug, PartialEq)]
pub struct FunctionDef {
    pub name: String,
    pub arg_types: Vec<DataType>,
    pub return_type: DataType,
}

/// An expression tree.
#[derive(Debug, PartialEq)]
pub enum Expr {
    Column(String),
    Literal(ScalarValue),
    BinaryExpr(Box<Expr>, Operator, Box<Expr>),
    Not(Box<Expr>),
    ScalarFunction(FunctionDef, Vec<Expr>),
}

/// The model of a literal.
pub enum ScalarModel {
    Null,
    Boolean(bool),
    Int32(i32),
    Int64(i64),
    Utf8(Seq<char>),
}

/// The model of a function definition.
pub struct FunctionModel {
    pub name: Seq<char>,
    pub arg_types: Seq<DataType>,
    pub return_type: DataType,
}

/// The model of an expression.
pub enum ExprModel {
    Column(Seq<char>),
    Literal(ScalarModel),
    Binary(Box<ExprModel>, Operator, Box<ExprModel>),
    Not(Box<ExprModel>),
    Call(FunctionModel, Seq<ExprModel>),
}

impl View for ScalarValue {
    type V = ScalarModel;

    open spec fn view(&self) -> ScalarModel {
        match self {
            ScalarValue::Null => ScalarModel::Null,
            ScalarValue::Boolean(b) => ScalarModel::Boolean(*b),
            ScalarValue::Int32(i) => ScalarModel::Int32(*i),
            ScalarValue::Int64(i) => ScalarModel::Int64(*i),
            ScalarValue::Utf8(s) => ScalarModel::Utf8(s@),
        }
    }
}

impl View for FunctionDef {
    type V = FunctionModel;

    open spec fn view(&self) -> FunctionModel {
        FunctionModel { name: self.name@, arg_types: self.arg_types@, return_type: self.return_type }
    }
}

/// The model of an expression.
pub open spec fn expr_model(e: Expr) -> ExprModel
    decreases e,
{
    match e {
        Expr::Column(n) => ExprModel::Column(n@),
        Expr::Literal(v) => ExprModel::Literal(v@),
        Expr::BinaryExpr(l, op, r) => ExprModel::Binary(
            Box::new(expr_model(*l)),
            op,
            Box::new(expr_model(*r)),
        ),
        Expr::Not(x) => ExprModel::Not(Box::new(expr_model(*x))),
        Expr::ScalarFunction(f, args) => ExprModel::Call(f@, exprs_model(args@)),
    }
}

/// The models of a sequence of expressions, in order.
pub open spec fn exprs_model(s: Seq<Expr>) -> Seq<ExprModel>
    decreases s,
{
    if s.len() == 0 {
        seq![]
    } else {
        exprs_model(s.drop_last()).push(expr_model(s.last()))
    }
}

impl View for Expr {
    type V = ExprModel;

    open spec fn view(&self) -> ExprModel {
        expr_model(*self)
    }
}

pub proof fn lemma_exprs_model_len(s: Seq<Expr>)
    ensures
        exprs_model(s).len() == s.len(),
    decreases s.len(),
{
    if s.len() > 0 {
        lemma_exprs_model_len(s.drop_last());
    }
}

} // verus!
