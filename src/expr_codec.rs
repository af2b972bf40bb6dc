//! Writing expressions to bytes and reading them back.
use vstd::prelude::*;
use crate::error::ProtoError;
use crate::expr::{
    exprs_model, lemma_exprs_model_len, Expr, ExprModel, FunctionModel, Operator, ScalarModel,
    ScalarValue,
};
use crate::expr_wire::{
    args_depth, args_rebind, args_unresolved, args_wire, depth, expr_tag, expr_wire, op_tag, rebind,
    scalar_wire, unresolved,
};
use crate::registry::{lemma_resolve_name, resolve_name, FunctionRegistry};
use crate::wire::{
    lemma_split, lemma_trunc_split, read_str, read_varint, rest, starts_with, str_wire, truncates,
    varint, write_str, write_varint,
};

verus! {

broadcast use {vstd::std_specs::vec::axiom_vec_index_decreases, vstd::seq::axiom_seq_index_decreases};

proof fn lemma_args_wire_push(s: Seq<ExprModel>, x: ExprModel)
    ensures
        args_wire(s.push(x)) == args_wire(s) + expr_wire(x),
    decreases s.len(),
{
    assert(s.push(x)[0] == if s.len() == 0 { x } else { s[0] });
    if s.len() == 0 {
        assert(s.push(x).drop_first() =~= Seq::<ExprModel>::empty());
        assert(args_wire(Seq::<ExprModel>::empty()) =~= Seq::<u8>::empty());
        assert(args_wire(s.push(x)) =~= args_wire(s) + expr_wire(x));
    } else {
        assert(s.push(x).drop_first() =~= s.drop_first().push(x));
        lemma_args_wire_push(s.drop_first(), x);
        assert(args_wire(s.push(x)) =~= args_wire(s) + expr_wire(x));
    }
}

fn op_byte(op: Operator) -> (r: u8)
    ensures
        r == op_tag(op),
{
    match op {
        Operator::Eq => 0,
        Operator::NotEq => 1,
        Operator::Lt => 2,
        Operator::LtEq => 3,
        Operator::Gt => 4,
        Operator::GtEq => 5,
        Operator::And => 6,
        Operator::Or => 7,
    }
}

/// Appends the wire form of a literal.
pub fn encode_scalar(v: &ScalarValue, buf: &mut Vec<u8>)
    ensures
        final(buf)@ == old(buf)@ + scalar_wire(v@),
{
    let ghost start = buf@;
    match v {
        ScalarValue::Null => {
            buf.push(0);
            assert(buf@ =~= start + scalar_wire(v@));
        },
        ScalarValue::Boolean(b) => {
            buf.push(1);
            buf.push(if *b { 1 } else { 0 });
            assert(buf@ =~= start + scalar_wire(v@));
        },
        ScalarValue::Int32(i) => {
            buf.push(2);
            write_varint(buf, (*i as u32) as u64);
            assert(buf@ =~= start + scalar_wire(v@));
        },
        ScalarValue::Int64(i) => {
            buf.push(3);
            write_varint(buf, *i as u64);
            assert(buf@ =~= start + scalar_wire(v@));
        },
        ScalarValue::Utf8(s) => {
            buf.push(4);
            write_str(buf, s.as_str());
            assert(buf@ =~= start + scalar_wire(v@));
        },
    }
}

/// Appends the wire form of an expression.
pub fn encode_expr(e: &Expr, buf: &mut Vec<u8>)
    ensures
        final(buf)@ == old(buf)@ + expr_wire(e@),
    decreases e,
{
    let ghost start = buf@;
    match e {
        Expr::Column(n) => {
            buf.push(0);
            write_str(buf, n.as_str());
            assert(buf@ =~= start + expr_wire(e@));
        },
        Expr::Literal(v) => {
            buf.push(1);
            encode_scalar(v, buf);
            assert(buf@ =~= start + expr_wire(e@));
        },
        Expr::BinaryExpr(l, op, r) => {
            buf.push(2);
            buf.push(op_byte(*op));
            encode_expr(l, buf);
            encode_expr(r, buf);
            assert(buf@ =~= start + expr_wire(e@));
        },
        Expr::Not(x) => {
            buf.push(3);
            encode_expr(x, buf);
            assert(buf@ =~= start + expr_wire(e@));
        },
        Expr::ScalarFunction(f, args) => {
            buf.push(4);
            write_str(buf, f.name.as_str());
            proof {
                lemma_exprs_model_len(args@);
            }
            write_varint(buf, args.len() as u64);
            encode_args(args, buf);
            assert(buf@ =~= start + expr_wire(e@));
        },
    }
}

/// Appends the wire forms of `args`, in order.
fn encode_args(args: &Vec<Expr>, buf: &mut Vec<u8>)
    ensures
        final(buf)@ == old(buf)@ + args_wire(exprs_model(args@)),
    decreases args,
{
    let ghost base = buf@;
    let mut i: usize = 0;
    assert(exprs_model(args@.subrange(0, 0)) =~= Seq::<ExprModel>::empty());
    assert(base =~= base + args_wire(exprs_model(args@.subrange(0, 0))));
    while i < args.len()
        invariant
            i <= args@.len(),
            buf@ == base + args_wire(exprs_model(args@.subrange(0, i as int))),
        decreases args@.len() - i,
    {
        proof {
            assert(decreases_to!(args => args[i as int]));
        }
        encode_expr(&args[i], buf);
        proof {
            let s = args@.subrange(0, i as int);
            assert(args@.subrange(0, i + 1).drop_last() =~= s);
            assert(args@.subrange(0, i + 1).last() == args@[i as int]);
            lemma_args_wire_push(exprs_model(s), args@[i as int]@);
        }
        i = i + 1;
        assert(buf@ =~= base + args_wire(exprs_model(args@.subrange(0, i as int))));
    }
    assert(args@.subrange(0, args@.len() as int) =~= args@);
}


/// What a decode at `pos` with depth budget `budget` returns, where the bytes
/// there begin with the wire form of `e`: a failure if `e` is nested deeper
/// than the budget (`MalformedWireData` if every name in it resolves); else
/// the first unresolved function name, if any; else `e` with its functions
/// bound again, and the position after its wire form.
pub open spec fn expr_decoded(
    r: Result<(Expr, usize), ProtoError>,
    e: ExprModel,
    pos: int,
    budget: nat,
    reg: Seq<FunctionModel>,
    placeholder: bool,
) -> bool {
    if depth(e) > budget {
        r is Err && (unresolved(e, reg, placeholder) is None ==> r matches Err(
            ProtoError::MalformedWireData,
        ))
    } else {
        match unresolved(e, reg, placeholder) {
            None => r matches Ok((x, end)) && x@ == rebind(e, reg, placeholder) && end == pos
                + expr_wire(e).len(),
            Some(n) => r matches Err(ProtoError::UnresolvedFunction(m)) && m@ == n,
        }
    }
}

/// The same for a run of expressions read into the end of a vector.
pub open spec fn args_decoded(
    r: Result<usize, ProtoError>,
    before: Seq<Expr>,
    after: Seq<Expr>,
    s: Seq<ExprModel>,
    pos: int,
    budget: nat,
    reg: Seq<FunctionModel>,
    placeholder: bool,
) -> bool {
    if args_depth(s) > budget {
        r is Err && (args_unresolved(s, reg, placeholder) is None ==> r matches Err(
            ProtoError::MalformedWireData,
        ))
    } else {
        match args_unresolved(s, reg, placeholder) {
            None => r matches Ok(end) && end == pos + args_wire(s).len() && exprs_model(after)
                == exprs_model(before) + args_rebind(s, reg, placeholder),
            Some(n) => r matches Err(ProtoError::UnresolvedFunction(m)) && m@ == n,
        }
    }
}

proof fn lemma_depth_pos(e: ExprModel)
    ensures
        depth(e) >= 1,
{
}

proof fn lemma_wire_len(e: ExprModel)
    ensures
        expr_wire(e).len() >= 1,
{
    assert(expr_wire(e)[0] == expr_tag(e));
}

proof fn lemma_args_wire_len(s: Seq<ExprModel>)
    ensures
        args_wire(s).len() >= s.len(),
    decreases s.len(),
{
    if s.len() > 0 {
        lemma_args_wire_len(s.drop_first());
        lemma_wire_len(s[0]);
    }
}

/// The byte at `pos` is the tag of `e`.
proof fn lemma_tag(buf: Seq<u8>, pos: int, e: ExprModel)
    requires
        0 <= pos <= buf.len(),
        starts_with(rest(buf, pos), expr_wire(e)),
    ensures
        pos < buf.len(),
        buf[pos] == expr_tag(e),
{
    assert(expr_wire(e)[0] == expr_tag(e));
    assert(rest(buf, pos).subrange(0, expr_wire(e).len() as int)[0] == buf[pos]);
}

/// Bytes that are the wire form of `e` cut short, and not empty, begin with
/// the tag of `e`, and the bytes after the tag are the rest cut short.
proof fn lemma_trunc_tag(buf: Seq<u8>, pos: int, e: ExprModel)
    requires
        0 <= pos < buf.len(),
        truncates(rest(buf, pos), expr_wire(e)),
    ensures
        buf[pos] == expr_tag(e),
        truncates(rest(buf, pos + 1), expr_wire(e).drop_first()),
{
    assert(expr_wire(e)[0] == expr_tag(e));
    assert(rest(buf, pos)[0] == buf[pos]);
    assert(expr_wire(e) =~= seq![expr_tag(e)] + expr_wire(e).drop_first());
    lemma_trunc_split(buf, pos, seq![expr_tag(e)], expr_wire(e).drop_first());
}

proof fn lemma_scalar_tail(buf: Seq<u8>, pos: int, k: u8, t: Seq<u8>)
    requires
        0 <= pos <= buf.len(),
        starts_with(rest(buf, pos), seq![k] + t),
    ensures
        pos < buf.len(),
        buf[pos] == k,
        starts_with(rest(buf, pos + 1), t),
{
    lemma_split(buf, pos, seq![k], t);
    assert(rest(buf, pos).subrange(0, 1)[0] == buf[pos]);
}

fn op_from_byte(b: u8) -> (r: Option<Operator>)
    ensures
        r matches Some(op) ==> op_tag(op) == b,
        forall|op: Operator| op_tag(op) == b ==> r == Some(op),
{
    match b {
        0 => Some(Operator::Eq),
        1 => Some(Operator::NotEq),
        2 => Some(Operator::Lt),
        3 => Some(Operator::LtEq),
        4 => Some(Operator::Gt),
        5 => Some(Operator::GtEq),
        6 => Some(Operator::And),
        7 => Some(Operator::Or),
        _ => None,
    }
}

/// Reads the wire form of a literal at `pos`.
pub fn decode_scalar_at(buf: &[u8], pos: usize) -> (r: Option<(ScalarValue, usize)>)
    requires
        pos <= buf@.len(),
    ensures
        r matches Some((_, end)) ==> pos < end <= buf@.len(),
        forall|v: ScalarModel|
            #![trigger scalar_wire(v)]
            starts_with(rest(buf@, pos as int), scalar_wire(v)) ==> (r matches Some((x, end)) && x@
                == v && end == pos + scalar_wire(v).len()),
        forall|v: ScalarModel|
            #![trigger scalar_wire(v)]
            truncates(rest(buf@, pos as int), scalar_wire(v)) ==> r is None,
        r matches Some((x, end)) ==> buf@.subrange(pos as int, end as int) == scalar_wire(x@),
{
    if pos >= buf.len() {
        proof {
            assert forall|v: ScalarModel|
                #![trigger scalar_wire(v)]
                starts_with(rest(buf@, pos as int), scalar_wire(v)) implies false by {
                assert(scalar_wire(v).len() >= 1);
            }
        }
        return None;
    }
    let k = buf[pos];
    let r = if k == 0 {
        assert(buf@.subrange(pos as int, pos + 1) =~= seq![0u8]);
        Some((ScalarValue::Null, pos + 1))
    } else if k == 1 {
        if pos + 1 >= buf.len() {
            None
        } else if buf[pos + 1] == 0 {
            assert(buf@.subrange(pos as int, pos + 2) =~= seq![1u8, 0u8]);
            Some((ScalarValue::Boolean(false), pos + 2))
        } else if buf[pos + 1] == 1 {
            assert(buf@.subrange(pos as int, pos + 2) =~= seq![1u8, 1u8]);
            Some((ScalarValue::Boolean(true), pos + 2))
        } else {
            None
        }
    } else if k == 2 {
        match read_varint(buf, pos + 1) {
            Some((w, end)) => if w > 0xFFFF_FFFF {
                None
            } else {
                let i = (w as u32) as i32;
                assert((i as u32) as u64 == w) by (bit_vector)
                    requires
                        i == (w as u32) as i32,
                        w <= 0xFFFF_FFFF,
                ;
                assert(buf@.subrange(pos as int, end as int) =~= seq![2u8] + buf@.subrange(
                    pos + 1,
                    end as int,
                ));
                Some((ScalarValue::Int32(i), end))
            },
            None => None,
        }
    } else if k == 3 {
        match read_varint(buf, pos + 1) {
            Some((w, end)) => {
                let i = w as i64;
                assert((i as u64) == w) by (bit_vector)
                    requires
                        i == w as i64,
                ;
                assert(buf@.subrange(pos as int, end as int) =~= seq![3u8] + buf@.subrange(
                    pos + 1,
                    end as int,
                ));
                Some((ScalarValue::Int64(i), end))
            },
            None => None,
        }
    } else if k == 4 {
        match read_str(buf, pos + 1) {
            Some((t, end)) => {
                assert(buf@.subrange(pos as int, end as int) =~= seq![4u8] + buf@.subrange(
                    pos + 1,
                    end as int,
                ));
                Some((ScalarValue::Utf8(t), end))
            },
            None => None,
        }
    } else {
        None
    };
    proof {
        assert forall|v: ScalarModel|
            #![trigger scalar_wire(v)]
            starts_with(rest(buf@, pos as int), scalar_wire(v)) implies (r matches Some((x, end))
                && x@ == v && end == pos + scalar_wire(v).len()) by {
            match v {
                ScalarModel::Null => {
                    assert(scalar_wire(v) =~= seq![0u8] + Seq::<u8>::empty());
                    lemma_scalar_tail(buf@, pos as int, 0, Seq::<u8>::empty());
                },
                ScalarModel::Boolean(b) => {
                    let bb: u8 = if b { 1 } else { 0 };
                    assert(scalar_wire(v) =~= seq![1u8] + seq![bb]);
                    lemma_scalar_tail(buf@, pos as int, 1, seq![bb]);
                    assert(rest(buf@, pos + 1).subrange(0, 1)[0] == buf@[pos + 1]);
                },
                ScalarModel::Int32(i) => {
                    let w0: u64 = (i as u32) as u64;
                    assert(varint(w0 as nat) == varint((i as u32) as nat));
                    lemma_scalar_tail(buf@, pos as int, 2, varint((i as u32) as nat));
                    assert(((w0 as u32) as i32) == i) by (bit_vector)
                        requires
                            w0 == (i as u32) as u64,
                    ;
                },
                ScalarModel::Int64(i) => {
                    let w0: u64 = i as u64;
                    assert(varint(w0 as nat) == varint((i as u64) as nat));
                    lemma_scalar_tail(buf@, pos as int, 3, varint((i as u64) as nat));
                    assert((w0 as i64) == i) by (bit_vector)
                        requires
                            w0 == i as u64,
                    ;
                },
                ScalarModel::Utf8(t) => {
                    lemma_scalar_tail(buf@, pos as int, 4, str_wire(t));
                },
            }
        }
        assert forall|v: ScalarModel|
            #![trigger scalar_wire(v)]
            truncates(rest(buf@, pos as int), scalar_wire(v)) implies r is None by {
            let tail = scalar_wire(v).drop_first();
            assert(scalar_wire(v) =~= seq![scalar_wire(v)[0]] + tail);
            lemma_trunc_split(buf@, pos as int, seq![scalar_wire(v)[0]], tail);
            assert(rest(buf@, pos as int)[0] == buf@[pos as int]);
            match v {
                ScalarModel::Null => {},
                ScalarModel::Boolean(b) => {},
                ScalarModel::Int32(i) => {
                    assert(tail =~= varint((i as u32) as nat));
                },
                ScalarModel::Int64(i) => {
                    assert(tail =~= varint((i as u64) as nat));
                },
                ScalarModel::Utf8(t) => {
                    assert(tail =~= str_wire(t));
                },
            }
        }
    }
    r
}


proof fn lemma_binary_parts(buf: Seq<u8>, pos: int, l: ExprModel, op: Operator, r: ExprModel)
    requires
        0 <= pos <= buf.len(),
        starts_with(rest(buf, pos), expr_wire(ExprModel::Binary(Box::new(l), op, Box::new(r)))),
    ensures
        pos + 2 <= buf.len(),
        buf[pos + 1] == op_tag(op),
        starts_with(rest(buf, pos + 2), expr_wire(l)),
        starts_with(rest(buf, pos + 2 + expr_wire(l).len()), expr_wire(r)),
        expr_wire(ExprModel::Binary(Box::new(l), op, Box::new(r))).len() == 2 + expr_wire(l).len()
            + expr_wire(r).len(),
{
    let h = seq![2u8, op_tag(op)];
    lemma_split(buf, pos, h, expr_wire(l) + expr_wire(r));
    assert(rest(buf, pos).subrange(0, 2)[1] == buf[pos + 1]);
    lemma_split(buf, pos + 2, expr_wire(l), expr_wire(r));
}

proof fn lemma_call_parts(buf: Seq<u8>, pos: int, f: FunctionModel, args: Seq<ExprModel>)
    requires
        0 <= pos <= buf.len(),
        starts_with(rest(buf, pos), expr_wire(ExprModel::Call(f, args))),
    ensures
        starts_with(rest(buf, pos + 1), str_wire(f.name)),
        starts_with(rest(buf, pos + 1 + str_wire(f.name).len()), varint(args.len())),
        starts_with(
            rest(buf, pos + 1 + str_wire(f.name).len() + varint(args.len()).len()),
            args_wire(args),
        ),
        pos + 1 + str_wire(f.name).len() + varint(args.len()).len() + args_wire(args).len()
            <= buf.len(),
        expr_wire(ExprModel::Call(f, args)).len() == 1 + str_wire(f.name).len() + varint(
            args.len(),
        ).len() + args_wire(args).len(),
{
    let a = str_wire(f.name);
    let v = varint(args.len());
    let w = args_wire(args);
    lemma_split(buf, pos, seq![4u8], a + (v + w));
    lemma_split(buf, pos + 1, a, v + w);
    lemma_split(buf, pos + 1 + a.len(), v, w);
}

/// Reads an expression at `pos`, nested at most `budget` deep, binding the
/// functions it calls through `reg` (or to stand-ins, for a placeholder
/// lookup).
pub fn decode_expr_at(
    buf: &[u8],
    pos: usize,
    budget: u64,
    reg: &FunctionRegistry,
    placeholder: bool,
) -> (r: Result<(Expr, usize), ProtoError>)
    requires
        pos <= buf@.len(),
    ensures
        r matches Ok((_, end)) ==> pos < end <= buf@.len(),
        r matches Ok((x, end)) ==> buf@.subrange(pos as int, end as int) == expr_wire(x@),
        pos == buf@.len() ==> r matches Err(ProtoError::MalformedWireData),
        pos < buf@.len() && buf@[pos as int] > 4 ==> r matches Err(ProtoError::MalformedWireData),
        forall|e: ExprModel|
            #![trigger expr_wire(e)]
            starts_with(rest(buf@, pos as int), expr_wire(e)) ==> expr_decoded(
                r,
                e,
                pos as int,
                budget as nat,
                reg@,
                placeholder,
            ),
        forall|e: ExprModel|
            #![trigger expr_wire(e)]
            truncates(rest(buf@, pos as int), expr_wire(e)) ==> r is Err,
    decreases budget, 1nat,
{
    if budget == 0 || pos >= buf.len() {
        proof {
            assert forall|e: ExprModel|
                #![trigger expr_wire(e)]
                starts_with(rest(buf@, pos as int), expr_wire(e)) implies expr_decoded(
                    Err(ProtoError::MalformedWireData),
                    e,
                    pos as int,
                    budget as nat,
                    reg@,
                    placeholder,
                ) by {
                lemma_depth_pos(e);
                lemma_tag(buf@, pos as int, e);
            }
        }
        return Err(ProtoError::MalformedWireData);
    }
    let t = buf[pos];
    if t == 0 {
        decode_column(buf, pos, budget, reg, placeholder)
    } else if t == 1 {
        decode_literal(buf, pos, budget, reg, placeholder)
    } else if t == 2 {
        decode_binary(buf, pos, budget, reg, placeholder)
    } else if t == 3 {
        decode_not(buf, pos, budget, reg, placeholder)
    } else if t == 4 {
        decode_call(buf, pos, budget, reg, placeholder)
    } else {
        proof {
            assert forall|e: ExprModel|
                #![trigger expr_wire(e)]
                starts_with(rest(buf@, pos as int), expr_wire(e)) implies false by {
                lemma_tag(buf@, pos as int, e);
            }
        }
        Err(ProtoError::MalformedWireData)
    }
}

fn decode_column(
    buf: &[u8],
    pos: usize,
    budget: u64,
    reg: &FunctionRegistry,
    placeholder: bool,
) -> (r: Result<(Expr, usize), ProtoError>)
    requires
        pos < buf@.len(),
        buf@[pos as int] == 0,
        budget > 0,
    ensures
        r matches Ok((_, end)) ==> pos < end <= buf@.len(),
        r matches Ok((x, end)) ==> buf@.subrange(pos as int, end as int) == expr_wire(x@),
        forall|e: ExprModel|
            #![trigger expr_wire(e)]
            starts_with(rest(buf@, pos as int), expr_wire(e)) ==> expr_decoded(
                r,
                e,
                pos as int,
                budget as nat,
                reg@,
                placeholder,
            ),
        forall|e: ExprModel|
            #![trigger expr_wire(e)]
            truncates(rest(buf@, pos as int), expr_wire(e)) ==> r is Err,
{
    let total = buf.len();
    assert(pos + 1 <= total);
    let r = match read_str(buf, pos + 1) {
        Some((n, end)) => {
            assert(buf@.subrange(pos as int, end as int) =~= seq![0u8] + buf@.subrange(
                pos + 1,
                end as int,
            ));
            Ok((Expr::Column(n), end))
        },
        None => Err(ProtoError::MalformedWireData),
    };
    proof {
        assert forall|e: ExprModel|
            #![trigger expr_wire(e)]
            starts_with(rest(buf@, pos as int), expr_wire(e)) implies expr_decoded(
                r,
                e,
                pos as int,
                budget as nat,
                reg@,
                placeholder,
            ) by {
            lemma_tag(buf@, pos as int, e);
            if let ExprModel::Column(n) = e {
                lemma_scalar_tail(buf@, pos as int, 0, str_wire(n));
            }
        }
        assert forall|e: ExprModel|
            #![trigger expr_wire(e)]
            truncates(rest(buf@, pos as int), expr_wire(e)) implies r is Err by {
            lemma_trunc_tag(buf@, pos as int, e);
            if let ExprModel::Column(n) = e {
                assert(expr_wire(e).drop_first() =~= str_wire(n));
            }
        }
    }
    r
}

fn decode_literal(
    buf: &[u8],
    pos: usize,
    budget: u64,
    reg: &FunctionRegistry,
    placeholder: bool,
) -> (r: Result<(Expr, usize), ProtoError>)
    requires
        pos < buf@.len(),
        buf@[pos as int] == 1,
        budget > 0,
    ensures
        r matches Ok((_, end)) ==> pos < end <= buf@.len(),
        r matches Ok((x, end)) ==> buf@.subrange(pos as int, end as int) == expr_wire(x@),
        forall|e: ExprModel|
            #![trigger expr_wire(e)]
            starts_with(rest(buf@, pos as int), expr_wire(e)) ==> expr_decoded(
                r,
                e,
                pos as int,
                budget as nat,
                reg@,
                placeholder,
            ),
        forall|e: ExprModel|
            #![trigger expr_wire(e)]
            truncates(rest(buf@, pos as int), expr_wire(e)) ==> r is Err,
{
    let total = buf.len();
    assert(pos + 1 <= total);
    let r = match decode_scalar_at(buf, pos + 1) {
        Some((v, end)) => {
            assert(buf@.subrange(pos as int, end as int) =~= seq![1u8] + buf@.subrange(
                pos + 1,
                end as int,
            ));
            Ok((Expr::Literal(v), end))
        },
        None => Err(ProtoError::MalformedWireData),
    };
    proof {
        assert forall|e: ExprModel|
            #![trigger expr_wire(e)]
            starts_with(rest(buf@, pos as int), expr_wire(e)) implies expr_decoded(
                r,
                e,
                pos as int,
                budget as nat,
                reg@,
                placeholder,
            ) by {
            lemma_tag(buf@, pos as int, e);
            if let ExprModel::Literal(v) = e {
                lemma_scalar_tail(buf@, pos as int, 1, scalar_wire(v));
            }
        }
        assert forall|e: ExprModel|
            #![trigger expr_wire(e)]
            truncates(rest(buf@, pos as int), expr_wire(e)) implies r is Err by {
            lemma_trunc_tag(buf@, pos as int, e);
            if let ExprModel::Literal(v) = e {
                assert(expr_wire(e).drop_first() =~= scalar_wire(v));
            }
        }
    }
    r
}

#[verifier::rlimit(60)]
fn decode_binary(
    buf: &[u8],
    pos: usize,
    budget: u64,
    reg: &FunctionRegistry,
    placeholder: bool,
) -> (r: Result<(Expr, usize), ProtoError>)
    requires
        pos < buf@.len(),
        buf@[pos as int] == 2,
        budget > 0,
    ensures
        r matches Ok((_, end)) ==> pos < end <= buf@.len(),
        r matches Ok((x, end)) ==> buf@.subrange(pos as int, end as int) == expr_wire(x@),
        forall|e: ExprModel|
            #![trigger expr_wire(e)]
            starts_with(rest(buf@, pos as int), expr_wire(e)) ==> expr_decoded(
                r,
                e,
                pos as int,
                budget as nat,
                reg@,
                placeholder,
            ),
        forall|e: ExprModel|
            #![trigger expr_wire(e)]
            truncates(rest(buf@, pos as int), expr_wire(e)) ==> r is Err,
    decreases budget, 0nat,
{
    if pos >= buf.len() - 1 {
        proof {
            assert forall|e: ExprModel|
                #![trigger expr_wire(e)]
                starts_with(rest(buf@, pos as int), expr_wire(e)) implies false by {
                lemma_tag(buf@, pos as int, e);
                if let ExprModel::Binary(l, op, rr) = e {
                    lemma_binary_parts(buf@, pos as int, *l, op, *rr);
                }
            }
        }
        return Err(ProtoError::MalformedWireData);
    }
    let op = match op_from_byte(buf[pos + 1]) {
        Some(op) => op,
        None => {
            proof {
                assert forall|e: ExprModel|
                    #![trigger expr_wire(e)]
                    starts_with(rest(buf@, pos as int), expr_wire(e)) implies false by {
                    lemma_tag(buf@, pos as int, e);
                    if let ExprModel::Binary(l, op, rr) = e {
                        lemma_binary_parts(buf@, pos as int, *l, op, *rr);
                    }
                }
            }
            return Err(ProtoError::MalformedWireData);
        },
    };
    let left = decode_expr_at(buf, pos + 2, budget - 1, reg, placeholder);
    let (l, p1) = match left {
        Ok(v) => v,
        Err(x) => {
            proof {
                assert forall|e: ExprModel|
                    #![trigger expr_wire(e)]
                    starts_with(rest(buf@, pos as int), expr_wire(e)) implies expr_decoded(
                        Err(x),
                        e,
                        pos as int,
                        budget as nat,
                        reg@,
                        placeholder,
                    ) by {
                    lemma_tag(buf@, pos as int, e);
                    if let ExprModel::Binary(l0, op0, r0) = e {
                        lemma_binary_parts(buf@, pos as int, *l0, op0, *r0);
                        assert(expr_decoded(
                            left,
                            *l0,
                            pos + 2,
                            (budget - 1) as nat,
                            reg@,
                            placeholder,
                        ));
                    }
                }
            }
            return Err(x);
        },
    };
    let right = decode_expr_at(buf, p1, budget - 1, reg, placeholder);
    let (rt, p2) = match right {
        Ok(v) => v,
        Err(x) => {
            proof {
                assert forall|e: ExprModel|
                    #![trigger expr_wire(e)]
                    starts_with(rest(buf@, pos as int), expr_wire(e)) implies expr_decoded(
                        Err(x),
                        e,
                        pos as int,
                        budget as nat,
                        reg@,
                        placeholder,
                    ) by {
                    lemma_tag(buf@, pos as int, e);
                    if let ExprModel::Binary(l0, op0, r0) = e {
                        lemma_binary_parts(buf@, pos as int, *l0, op0, *r0);
                        assert(expr_decoded(
                            left,
                            *l0,
                            pos + 2,
                            (budget - 1) as nat,
                            reg@,
                            placeholder,
                        ));
                        if depth(*l0) <= budget - 1 && unresolved(*l0, reg@, placeholder) is None {
                            assert(expr_decoded(
                                right,
                                *r0,
                                p1 as int,
                                (budget - 1) as nat,
                                reg@,
                                placeholder,
                            ));
                        }
                    }
                }
            }
            return Err(x);
        },
    };
    assert(buf@.subrange(pos as int, p2 as int) =~= seq![2u8, op_tag(op)] + (buf@.subrange(
        pos + 2,
        p1 as int,
    ) + buf@.subrange(p1 as int, p2 as int)));
    let out = Expr::BinaryExpr(Box::new(l), op, Box::new(rt));
    let r = Ok((out, p2));
    proof {
        assert forall|e: ExprModel|
            #![trigger expr_wire(e)]
            starts_with(rest(buf@, pos as int), expr_wire(e)) implies expr_decoded(
                r,
                e,
                pos as int,
                budget as nat,
                reg@,
                placeholder,
            ) by {
            lemma_tag(buf@, pos as int, e);
            if let ExprModel::Binary(l0, op0, r0) = e {
                lemma_binary_parts(buf@, pos as int, *l0, op0, *r0);
                assert(expr_decoded(left, *l0, pos + 2, (budget - 1) as nat, reg@, placeholder));
                if depth(*l0) <= budget - 1 && unresolved(*l0, reg@, placeholder) is None {
                    assert(expr_decoded(right, *r0, p1 as int, (budget - 1) as nat, reg@, placeholder));
                }
            }
        }
        assert forall|e: ExprModel|
            #![trigger expr_wire(e)]
            truncates(rest(buf@, pos as int), expr_wire(e)) implies false by {
            lemma_trunc_tag(buf@, pos as int, e);
            if let ExprModel::Binary(l0, op0, r0) = e {
                let tl = expr_wire(*l0) + expr_wire(*r0);
                assert(expr_wire(e).drop_first() =~= seq![op_tag(op0)] + tl);
                lemma_trunc_split(buf@, pos + 1, seq![op_tag(op0)], tl);
                assert(rest(buf@, pos + 1).len() >= 1);
                lemma_trunc_split(buf@, pos + 2, expr_wire(*l0), expr_wire(*r0));
                if starts_with(rest(buf@, pos + 2), expr_wire(*l0)) {
                    assert(expr_decoded(left, *l0, pos + 2, (budget - 1) as nat, reg@, placeholder));
                }
            }
        }
    }
    r
}

fn decode_not(
    buf: &[u8],
    pos: usize,
    budget: u64,
    reg: &FunctionRegistry,
    placeholder: bool,
) -> (r: Result<(Expr, usize), ProtoError>)
    requires
        pos < buf@.len(),
        buf@[pos as int] == 3,
        budget > 0,
    ensures
        r matches Ok((_, end)) ==> pos < end <= buf@.len(),
        r matches Ok((x, end)) ==> buf@.subrange(pos as int, end as int) == expr_wire(x@),
        forall|e: ExprModel|
            #![trigger expr_wire(e)]
            starts_with(rest(buf@, pos as int), expr_wire(e)) ==> expr_decoded(
                r,
                e,
                pos as int,
                budget as nat,
                reg@,
                placeholder,
            ),
        forall|e: ExprModel|
            #![trigger expr_wire(e)]
            truncates(rest(buf@, pos as int), expr_wire(e)) ==> r is Err,
    decreases budget, 0nat,
{
    let total = buf.len();
    assert(pos + 1 <= total);
    let inner = decode_expr_at(buf, pos + 1, budget - 1, reg, placeholder);
    let r = match inner {
        Ok((x, end)) => {
            assert(buf@.subrange(pos as int, end as int) =~= seq![3u8] + buf@.subrange(
                pos + 1,
                end as int,
            ));
            Ok((Expr::Not(Box::new(x)), end))
        },
        Err(x) => Err(x),
    };
    proof {
        assert forall|e: ExprModel|
            #![trigger expr_wire(e)]
            starts_with(rest(buf@, pos as int), expr_wire(e)) implies expr_decoded(
                r,
                e,
                pos as int,
                budget as nat,
                reg@,
                placeholder,
            ) by {
            lemma_tag(buf@, pos as int, e);
            if let ExprModel::Not(x0) = e {
                lemma_scalar_tail(buf@, pos as int, 3, expr_wire(*x0));
                assert(expr_decoded(inner, *x0, pos + 1, (budget - 1) as nat, reg@, placeholder));
            }
        }
        assert forall|e: ExprModel|
            #![trigger expr_wire(e)]
            truncates(rest(buf@, pos as int), expr_wire(e)) implies r is Err by {
            lemma_trunc_tag(buf@, pos as int, e);
            if let ExprModel::Not(x0) = e {
                assert(expr_wire(e).drop_first() =~= expr_wire(*x0));
            }
        }
    }
    r
}

#[verifier::rlimit(60)]
fn decode_call(
    buf: &[u8],
    pos: usize,
    budget: u64,
    reg: &FunctionRegistry,
    placeholder: bool,
) -> (r: Result<(Expr, usize), ProtoError>)
    requires
        pos < buf@.len(),
        buf@[pos as int] == 4,
        budget > 0,
    ensures
        r matches Ok((_, end)) ==> pos < end <= buf@.len(),
        r matches Ok((x, end)) ==> buf@.subrange(pos as int, end as int) == expr_wire(x@),
        forall|e: ExprModel|
            #![trigger expr_wire(e)]
            starts_with(rest(buf@, pos as int), expr_wire(e)) ==> expr_decoded(
                r,
                e,
                pos as int,
                budget as nat,
                reg@,
                placeholder,
            ),
        forall|e: ExprModel|
            #![trigger expr_wire(e)]
            truncates(rest(buf@, pos as int), expr_wire(e)) ==> r is Err,
    decreases budget, 0nat,
{
    let total = buf.len();
    let (name, p1) = match read_str(buf, pos + 1) {
        Some(x) => x,
        None => {
            proof {
                assert forall|e: ExprModel|
                    #![trigger expr_wire(e)]
                    starts_with(rest(buf@, pos as int), expr_wire(e)) implies false by {
                    lemma_tag(buf@, pos as int, e);
                    if let ExprModel::Call(f, args) = e {
                        lemma_call_parts(buf@, pos as int, f, args);
                    }
                }
            }
            return Err(ProtoError::MalformedWireData);
        },
    };
    let def = match resolve_name(reg, placeholder, &name) {
        Some(d) => d,
        None => {
            let r = Err(ProtoError::UnresolvedFunction(name));
            proof {
                assert forall|e: ExprModel|
                    #![trigger expr_wire(e)]
                    starts_with(rest(buf@, pos as int), expr_wire(e)) implies expr_decoded(
                        r,
                        e,
                        pos as int,
                        budget as nat,
                        reg@,
                        placeholder,
                    ) by {
                    lemma_tag(buf@, pos as int, e);
                    if let ExprModel::Call(f, args) = e {
                        lemma_call_parts(buf@, pos as int, f, args);
                    }
                }
            }
            return r;
        },
    };
    let (count, p2) = match read_varint(buf, p1) {
        Some(x) => x,
        None => {
            proof {
                assert forall|e: ExprModel|
                    #![trigger expr_wire(e)]
                    starts_with(rest(buf@, pos as int), expr_wire(e)) implies false by {
                    lemma_tag(buf@, pos as int, e);
                    if let ExprModel::Call(f, args) = e {
                        lemma_call_parts(buf@, pos as int, f, args);
                        lemma_args_wire_len(args);
                        let k = args.len() as u64;
                        assert(varint(k as nat) == varint(args.len()));
                    }
                }
            }
            return Err(ProtoError::MalformedWireData);
        },
    };
    let mut args: Vec<Expr> = Vec::new();
    let res = decode_args(buf, p2, count, budget - 1, reg, placeholder, &mut args);
    proof {
        lemma_resolve_name(reg@, placeholder, name@);
    }
    let r = match res {
        Ok(end) => {
            proof {
                let m = choose|m: Seq<ExprModel>|
                    m.len() == count && exprs_model(args@) == exprs_model(Seq::<Expr>::empty()) + m
                        && buf@.subrange(p2 as int, end as int) == args_wire(m);
                assert(exprs_model(args@) =~= m);
                assert(buf@.subrange(pos as int, end as int) =~= seq![4u8] + (buf@.subrange(
                    pos + 1,
                    p1 as int,
                ) + (buf@.subrange(p1 as int, p2 as int) + buf@.subrange(p2 as int, end as int))));
            }
            Ok((Expr::ScalarFunction(def, args), end))
        },
        Err(x) => Err(x),
    };
    proof {
        assert forall|e: ExprModel|
            #![trigger expr_wire(e)]
            starts_with(rest(buf@, pos as int), expr_wire(e)) implies expr_decoded(
                r,
                e,
                pos as int,
                budget as nat,
                reg@,
                placeholder,
            ) by {
            lemma_tag(buf@, pos as int, e);
            if let ExprModel::Call(f, s) = e {
                lemma_call_parts(buf@, pos as int, f, s);
                lemma_args_wire_len(s);
                let k = s.len() as u64;
                assert(varint(k as nat) == varint(s.len()));
                assert(args_decoded(
                    res,
                    Seq::<Expr>::empty(),
                    args@,
                    s,
                    p2 as int,
                    (budget - 1) as nat,
                    reg@,
                    placeholder,
                ));
                assert(exprs_model(Seq::<Expr>::empty()) + args_rebind(s, reg@, placeholder)
                    =~= args_rebind(s, reg@, placeholder));
            }
        }
        assert forall|e: ExprModel|
            #![trigger expr_wire(e)]
            truncates(rest(buf@, pos as int), expr_wire(e)) implies r is Err by {
            lemma_trunc_tag(buf@, pos as int, e);
            if let ExprModel::Call(f, s0) = e {
                let a = str_wire(f.name);
                let v = varint(s0.len());
                let w = args_wire(s0);
                assert(expr_wire(e).drop_first() =~= a + (v + w));
                lemma_trunc_split(buf@, pos + 1, a, v + w);
                if starts_with(rest(buf@, pos + 1), a) {
                    lemma_trunc_split(buf@, pos + 1 + a.len(), v, w);
                }
            }
        }
    }
    r
}

/// Reads `count` expressions one after another from `pos`, each nested at
/// most `budget` deep, onto the end of `acc`; on success returns the
/// position after them.
#[verifier::rlimit(60)]
fn decode_args(
    buf: &[u8],
    pos: usize,
    count: u64,
    budget: u64,
    reg: &FunctionRegistry,
    placeholder: bool,
    acc: &mut Vec<Expr>,
) -> (r: Result<usize, ProtoError>)
    requires
        pos <= buf@.len(),
    ensures
        r matches Ok(end) ==> pos <= end <= buf@.len(),
        r matches Ok(end) ==> exists|m: Seq<ExprModel>|
            m.len() == count && exprs_model(final(acc)@) == exprs_model(old(acc)@) + m && buf@.subrange(
                pos as int,
                end as int,
            ) == args_wire(m),
        forall|s: Seq<ExprModel>|
            #![trigger args_wire(s)]
            s.len() == count && starts_with(rest(buf@, pos as int), args_wire(s)) ==> args_decoded(
                r,
                old(acc)@,
                final(acc)@,
                s,
                pos as int,
                budget as nat,
                reg@,
                placeholder,
            ),
        forall|s: Seq<ExprModel>|
            #![trigger args_wire(s)]
            s.len() == count && truncates(rest(buf@, pos as int), args_wire(s)) ==> r is Err,
    decreases budget, count + 2,
{
    if count == 0 {
        proof {
            assert forall|s: Seq<ExprModel>|
                #![trigger args_wire(s)]
                s.len() == count && starts_with(rest(buf@, pos as int), args_wire(s))
                    implies args_decoded(
                    Ok(pos),
                    old(acc)@,
                    acc@,
                    s,
                    pos as int,
                    budget as nat,
                    reg@,
                    placeholder,
                ) by {
                assert(args_rebind(s, reg@, placeholder) =~= Seq::<ExprModel>::empty());
                assert(exprs_model(acc@) + args_rebind(s, reg@, placeholder) =~= exprs_model(acc@));
            }
            assert forall|s: Seq<ExprModel>|
                #![trigger args_wire(s)]
                s.len() == count && truncates(rest(buf@, pos as int), args_wire(s)) implies false by {
                assert(args_wire(s) =~= Seq::<u8>::empty());
            }
        }
        proof {
            let m = Seq::<ExprModel>::empty();
            assert(exprs_model(acc@) == exprs_model(old(acc)@) + m);
            assert(buf@.subrange(pos as int, pos as int) =~= args_wire(m));
        }
        return Ok(pos);
    }
    let ghost before = acc@;
    let first = decode_expr_at(buf, pos, budget, reg, placeholder);
    let (x, p1) = match first {
        Ok(v) => v,
        Err(err) => {
            proof {
                assert forall|s: Seq<ExprModel>|
                    #![trigger args_wire(s)]
                    s.len() == count && starts_with(rest(buf@, pos as int), args_wire(s))
                        implies args_decoded(
                        Err(err),
                        old(acc)@,
                        acc@,
                        s,
                        pos as int,
                        budget as nat,
                        reg@,
                        placeholder,
                    ) by {
                    lemma_split(buf@, pos as int, expr_wire(s[0]), args_wire(s.drop_first()));
                    assert(expr_decoded(first, s[0], pos as int, budget as nat, reg@, placeholder));
                }
            }
            return Err(err);
        },
    };
    let ghost xm = x@;
    acc.push(x);
    proof {
        assert(acc@.drop_last() =~= before);
    }
    let ghost mid = acc@;
    let res = decode_args(buf, p1, count - 1, budget, reg, placeholder, acc);
    proof {
        if let Ok(end) = res {
            let m1 = choose|m: Seq<ExprModel>|
                m.len() == count - 1 && exprs_model(acc@) == exprs_model(mid) + m && buf@.subrange(
                    p1 as int,
                    end as int,
                ) == args_wire(m);
            let m = seq![xm] + m1;
            assert(m.drop_first() =~= m1);
            assert(exprs_model(acc@) =~= exprs_model(before) + m);
            assert(buf@.subrange(pos as int, end as int) =~= buf@.subrange(pos as int, p1 as int)
                + buf@.subrange(p1 as int, end as int));
            assert(buf@.subrange(pos as int, end as int) == args_wire(m));
        }
    }
    proof {
        assert forall|s: Seq<ExprModel>|
            #![trigger args_wire(s)]
            s.len() == count && starts_with(rest(buf@, pos as int), args_wire(s)) implies args_decoded(
                res,
                before,
                acc@,
                s,
                pos as int,
                budget as nat,
                reg@,
                placeholder,
            ) by {
            let t = s.drop_first();
            lemma_split(buf@, pos as int, expr_wire(s[0]), args_wire(t));
            assert(expr_decoded(first, s[0], pos as int, budget as nat, reg@, placeholder));
            if depth(s[0]) <= budget && unresolved(s[0], reg@, placeholder) is None {
                assert(args_decoded(
                    res,
                    mid,
                    acc@,
                    t,
                    p1 as int,
                    budget as nat,
                    reg@,
                    placeholder,
                ));
                assert(exprs_model(mid) == exprs_model(before).push(xm));
                assert(args_rebind(s, reg@, placeholder) == seq![rebind(s[0], reg@, placeholder)]
                    + args_rebind(t, reg@, placeholder));
                assert(exprs_model(before) + args_rebind(s, reg@, placeholder) =~= exprs_model(
                    before,
                ).push(xm) + args_rebind(t, reg@, placeholder));
            }
        }
        assert forall|s: Seq<ExprModel>|
            #![trigger args_wire(s)]
            s.len() == count && truncates(rest(buf@, pos as int), args_wire(s)) implies res is Err by {
            let t = s.drop_first();
            lemma_trunc_split(buf@, pos as int, expr_wire(s[0]), args_wire(t));
            if starts_with(rest(buf@, pos as int), expr_wire(s[0])) {
                assert(expr_decoded(first, s[0], pos as int, budget as nat, reg@, placeholder));
            }
        }
    }
    res
}

} // verus!
