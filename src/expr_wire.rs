//! The wire form of expressions, as mathematical functions of their models.
use vstd::prelude::*;
use crate::expr::{ExprModel, FunctionModel, Operator, ScalarModel};
use crate::registry::resolve;
use crate::wire::{str_wire, varint};

verus! {

broadcast use {vstd::seq::axiom_seq_index_decreases, vstd::seq::axiom_seq_subrange_decreases};

/// How deeply nested an expression a decode reads before it gives up.
pub const RECURSION_LIMIT: u64 = 100;

pub open spec fn op_tag(op: Operator) -> u8 {
    match op {
        Operator::Eq => 0,
        Operator::NotEq => 1,
        Operator::Lt => 2,
        Operator::LtEq => 3,
        Operator::Gt => 4,
        Operator::GtEq => 5,
        Operator::And => 6,
        Operator::Or => 7,
    }
}

/// A literal on the wire: a kind byte, then the value.
pub open spec fn scalar_wire(v: ScalarModel) -> Seq<u8> {
    match v {
        ScalarModel::Null => seq![0u8],
        ScalarModel::Boolean(b) => seq![1u8, if b { 1u8 } else { 0u8 }],
        ScalarModel::Int32(i) => seq![2u8] + varint((i as u32) as nat),
        ScalarModel::Int64(i) => seq![3u8] + varint((i as u64) as nat),
        ScalarModel::Utf8(s) => seq![4u8] + str_wire(s),
    }
}

/// The first byte of an expression's wire form.
pub open spec fn expr_tag(e: ExprModel) -> u8 {
    match e {
        ExprModel::Column(_) => 0,
        ExprModel::Literal(_) => 1,
        ExprModel::Binary(_, _, _) => 2,
        ExprModel::Not(_) => 3,
        ExprModel::Call(_, _) => 4,
    }
}

/// An expression on the wire, in prefix order. A function call carries only
/// its name, the number of its arguments, and the arguments.
pub open spec fn expr_wire(e: ExprModel) -> Seq<u8>
    decreases e,
{
    match e {
        ExprModel::Column(n) => seq![0u8] + str_wire(n),
        ExprModel::Literal(v) => seq![1u8] + scalar_wire(v),
        ExprModel::Binary(l, op, r) => seq![2u8, op_tag(op)] + (expr_wire(*l) + expr_wire(*r)),
        ExprModel::Not(x) => seq![3u8] + expr_wire(*x),
        ExprModel::Call(f, args) => seq![4u8] + (str_wire(f.name) + (varint(args.len())
            + args_wire(args))),
    }
}

/// The wire forms of `s`, one after another.
pub open spec fn args_wire(s: Seq<ExprModel>) -> Seq<u8>
    decreases s,
{
    if s.len() == 0 {
        seq![]
    } else {
        expr_wire(s[0]) + args_wire(s.drop_first())
    }
}

/// The nesting depth of an expression: a leaf has depth one.
pub open spec fn depth(e: ExprModel) -> nat
    decreases e,
{
    match e {
        ExprModel::Column(_) => 1,
        ExprModel::Literal(_) => 1,
        ExprModel::Binary(l, _, r) => 1 + if depth(*l) >= depth(*r) {
            depth(*l)
        } else {
            depth(*r)
        },
        ExprModel::Not(x) => 1 + depth(*x),
        ExprModel::Call(_, args) => 1 + args_depth(args),
    }
}

/// The greatest depth among `s`, zero for none.
pub open spec fn args_depth(s: Seq<ExprModel>) -> nat
    decreases s,
{
    if s.len() == 0 {
        0
    } else {
        let a = depth(s[0]);
        let b = args_depth(s.drop_first());
        if a >= b {
            a
        } else {
            b
        }
    }
}

/// `e` with every function bound again by name, as a decode does it. A call
/// whose name does not resolve keeps its definition (the decode fails then).
pub open spec fn rebind(e: ExprModel, reg: Seq<FunctionModel>, placeholder: bool) -> ExprModel
    decreases e,
{
    match e {
        ExprModel::Binary(l, op, r) => ExprModel::Binary(
            Box::new(rebind(*l, reg, placeholder)),
            op,
            Box::new(rebind(*r, reg, placeholder)),
        ),
        ExprModel::Not(x) => ExprModel::Not(Box::new(rebind(*x, reg, placeholder))),
        ExprModel::Call(f, args) => ExprModel::Call(
            match resolve(reg, placeholder, f.name) {
                Some(d) => d,
                None => f,
            },
            args_rebind(args, reg, placeholder),
        ),
        _ => e,
    }
}

pub open spec fn args_rebind(s: Seq<ExprModel>, reg: Seq<FunctionModel>, placeholder: bool) -> Seq<
    ExprModel,
>
    decreases s,
{
    if s.len() == 0 {
        seq![]
    } else {
        seq![rebind(s[0], reg, placeholder)] + args_rebind(s.drop_first(), reg, placeholder)
    }
}

/// The first function name in `e`, in prefix order, that does not resolve.
pub open spec fn unresolved(e: ExprModel, reg: Seq<FunctionModel>, placeholder: bool) -> Option<
    Seq<char>,
>
    decreases e,
{
    match e {
        ExprModel::Binary(l, _, r) => match unresolved(*l, reg, placeholder) {
            Some(n) => Some(n),
            None => unresolved(*r, reg, placeholder),
        },
        ExprModel::Not(x) => unresolved(*x, reg, placeholder),
        ExprModel::Call(f, args) => if resolve(reg, placeholder, f.name) is None {
            Some(f.name)
        } else {
            args_unresolved(args, reg, placeholder)
        },
        _ => None,
    }
}

pub open spec fn args_unresolved(s: Seq<ExprModel>, reg: Seq<FunctionModel>, placeholder: bool) -> Option<
    Seq<char>,
>
    decreases s,
{
    if s.len() == 0 {
        None
    } else {
        match unresolved(s[0], reg, placeholder) {
            Some(n) => Some(n),
            None => args_unresolved(s.drop_first(), reg, placeholder),
        }
    }
}

/// Whether `e` calls no function.
pub open spec fn no_calls(e: ExprModel) -> bool
    decreases e,
{
    match e {
        ExprModel::Binary(l, _, r) => no_calls(*l) && no_calls(*r),
        ExprModel::Not(x) => no_calls(*x),
        ExprModel::Call(_, _) => false,
        _ => true,
    }
}

} // verus!
