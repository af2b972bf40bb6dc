//! The public entry points: expressions to bytes and back.
use vstd::prelude::*;
use crate::error::ProtoError;
use crate::expr::{Expr, ExprModel, FunctionModel, Operator};
use crate::expr_codec::{decode_expr_at, encode_expr, expr_decoded};
use crate::expr_wire::{
    args_rebind, args_unresolved, depth, expr_wire, no_calls, rebind, unresolved,
    RECURSION_LIMIT,
};
use crate::registry::{lookup, FunctionRegistry};
use crate::wire::{rest, truncates};

verus! {

/// What reading back the wire form of an expression gives.
pub enum ReadBack {
    /// The expression, with its functions bound again.
    Expr(ExprModel),
    /// The first function name that the registry did not know.
    Unresolved(Seq<char>),
    /// The expression is nested deeper than a decode reads, and every name in
    /// it resolves: the bytes are malformed.
    TooDeep,
    /// The expression is nested deeper than a decode reads, and a name in it
    /// does not resolve: which of the two is met first is left open.
    TooDeepUnresolved,
}

/// What reading back the wire form of `e` through `reg` gives; with
/// `placeholder`, every name is bound to a stand-in instead.
pub open spec fn read_back(e: ExprModel, reg: Seq<FunctionModel>, placeholder: bool) -> ReadBack {
    if depth(e) > RECURSION_LIMIT {
        if unresolved(e, reg, placeholder) is None {
            ReadBack::TooDeep
        } else {
            ReadBack::TooDeepUnresolved
        }
    } else {
        match unresolved(e, reg, placeholder) {
            Some(n) => ReadBack::Unresolved(n),
            None => ReadBack::Expr(rebind(e, reg, placeholder)),
        }
    }
}

/// `r` is what a decode returns for the outcome `b`.
pub open spec fn reads_as(r: Result<Expr, ProtoError>, b: ReadBack) -> bool {
    match b {
        ReadBack::Expr(m) => r matches Ok(x) && x@ == m,
        ReadBack::Unresolved(n) => r matches Err(ProtoError::UnresolvedFunction(t)) && t@ == n,
        ReadBack::TooDeep => r matches Err(ProtoError::MalformedWireData),
        ReadBack::TooDeepUnresolved => r is Err,
    }
}

/// Reads one whole expression from `bytes`.
fn decode_all(bytes: &[u8], reg: &FunctionRegistry, placeholder: bool) -> (r: Result<
    Expr,
    ProtoError,
>)
    ensures
        bytes@.len() == 0 ==> r matches Err(ProtoError::MalformedWireData),
        forall|e: ExprModel|
            #![trigger expr_wire(e)]
            bytes@ == expr_wire(e) ==> reads_as(r, read_back(e, reg@, placeholder)),
        forall|e: ExprModel| #![trigger expr_wire(e)] truncates(bytes@, expr_wire(e)) ==> r is Err,
        r matches Ok(x) ==> bytes@ == expr_wire(x@),
        bytes@.len() > 0 && bytes@[0] > 4 ==> r matches Err(ProtoError::MalformedWireData),
{
    let res = decode_expr_at(bytes, 0, RECURSION_LIMIT, reg, placeholder);
    let r = match res {
        Ok((x, end)) => if end == bytes.len() {
            Ok(x)
        } else {
            Err(ProtoError::MalformedWireData)
        },
        Err(x) => Err(x),
    };
    proof {
        assert forall|e: ExprModel|
            #![trigger expr_wire(e)]
            bytes@ == expr_wire(e) implies reads_as(r, read_back(e, reg@, placeholder)) by {
            assert(rest(bytes@, 0) =~= bytes@);
            assert(bytes@.subrange(0, bytes@.len() as int) =~= bytes@);
            assert(expr_decoded(res, e, 0, RECURSION_LIMIT as nat, reg@, placeholder));
        }
        assert(rest(bytes@, 0) =~= bytes@);
        assert(bytes@.subrange(0, bytes@.len() as int) =~= bytes@);
    }
    r
}

/// No name goes unresolved under a placeholder lookup.
proof fn lemma_placeholder_resolves(e: ExprModel, reg: Seq<FunctionModel>)
    ensures
        unresolved(e, reg, true) is None,
    decreases e,
{
    match e {
        ExprModel::Binary(l, _, r) => {
            lemma_placeholder_resolves(*l, reg);
            lemma_placeholder_resolves(*r, reg);
        },
        ExprModel::Not(x) => lemma_placeholder_resolves(*x, reg),
        ExprModel::Call(_, args) => lemma_placeholder_resolves_args(args, reg),
        _ => {},
    }
}

proof fn lemma_placeholder_resolves_args(s: Seq<ExprModel>, reg: Seq<FunctionModel>)
    ensures
        args_unresolved(s, reg, true) is None,
    decreases s,
{
    if s.len() > 0 {
        lemma_placeholder_resolves(s[0], reg);
        lemma_placeholder_resolves_args(s.drop_first(), reg);
    }
}

/// Whether every function that `e` calls is exactly the entry of its name in
/// `reg`.
pub open spec fn registered(e: ExprModel, reg: Seq<FunctionModel>) -> bool
    decreases e,
{
    match e {
        ExprModel::Binary(l, _, r) => registered(*l, reg) && registered(*r, reg),
        ExprModel::Not(x) => registered(*x, reg),
        ExprModel::Call(f, args) => lookup(reg, f.name) == Some(f) && args_registered(args, reg),
        _ => true,
    }
}

pub open spec fn args_registered(s: Seq<ExprModel>, reg: Seq<FunctionModel>) -> bool
    decreases s,
{
    s.len() > 0 ==> registered(s[0], reg) && args_registered(s.drop_first(), reg)
}

proof fn lemma_registered_rebind(e: ExprModel, reg: Seq<FunctionModel>)
    requires
        registered(e, reg),
    ensures
        unresolved(e, reg, false) is None,
        rebind(e, reg, false) == e,
    decreases e,
{
    match e {
        ExprModel::Binary(l, _, r) => {
            lemma_registered_rebind(*l, reg);
            lemma_registered_rebind(*r, reg);
        },
        ExprModel::Not(x) => lemma_registered_rebind(*x, reg),
        ExprModel::Call(_, args) => lemma_registered_rebind_args(args, reg),
        _ => {},
    }
}

proof fn lemma_registered_rebind_args(s: Seq<ExprModel>, reg: Seq<FunctionModel>)
    requires
        args_registered(s, reg),
    ensures
        args_unresolved(s, reg, false) is None,
        args_rebind(s, reg, false) == s,
    decreases s,
{
    if s.len() > 0 {
        lemma_registered_rebind(s[0], reg);
        lemma_registered_rebind_args(s.drop_first(), reg);
        assert(args_rebind(s, reg, false) =~= s);
    } else {
        assert(args_rebind(s, reg, false) =~= s);
    }
}

proof fn lemma_no_calls_registered(e: ExprModel, reg: Seq<FunctionModel>)
    requires
        no_calls(e),
    ensures
        registered(e, reg),
    decreases e,
{
    match e {
        ExprModel::Binary(l, _, r) => {
            lemma_no_calls_registered(*l, reg);
            lemma_no_calls_registered(*r, reg);
        },
        ExprModel::Not(x) => lemma_no_calls_registered(*x, reg),
        _ => {},
    }
}

proof fn lemma_call_unresolved_without_registry(e: ExprModel)
    requires
        !no_calls(e),
    ensures
        unresolved(e, Seq::empty(), false) is Some,
    decreases e,
{
    match e {
        ExprModel::Binary(l, _, r) => {
            if !no_calls(*l) {
                lemma_call_unresolved_without_registry(*l);
            } else {
                lemma_call_unresolved_without_registry(*r);
            }
        },
        ExprModel::Not(x) => lemma_call_unresolved_without_registry(*x),
        _ => {},
    }
}

/// An expression that calls no function, and is nested no deeper than a
/// decode reads, is read back as itself without any registry.
pub proof fn lemma_round_trip(e: ExprModel)
    requires
        no_calls(e),
        depth(e) <= RECURSION_LIMIT,
    ensures
        read_back(e, Seq::empty(), false) == ReadBack::Expr(e),
{
    lemma_no_calls_registered(e, Seq::empty());
    lemma_registered_rebind(e, Seq::empty());
}

/// An expression whose functions are all the entries of their names in
/// `reg` is read back through `reg` as itself; read back without a registry,
/// an expression that calls a function fails on an unresolved name.
pub proof fn lemma_registry_round_trip(e: ExprModel, reg: Seq<FunctionModel>)
    requires
        registered(e, reg),
        depth(e) <= RECURSION_LIMIT,
    ensures
        read_back(e, reg, false) == ReadBack::Expr(e),
        !no_calls(e) ==> read_back(e, Seq::empty(), false) is Unresolved,
{
    lemma_registered_rebind(e, reg);
    if !no_calls(e) {
        lemma_call_unresolved_without_registry(e);
    }
}

/// An expression that reads back without a registry reads back the same
/// through any registry: it calls no function.
pub proof fn lemma_registry_free(e: ExprModel, reg: Seq<FunctionModel>)
    requires
        read_back(e, Seq::empty(), false) is Expr,
    ensures
        no_calls(e),
        read_back(e, reg, false) == read_back(e, Seq::empty(), false),
{
    if !no_calls(e) {
        lemma_call_unresolved_without_registry(e);
    }
    lemma_round_trip(e);
    lemma_no_calls_registered(e, reg);
    lemma_registered_rebind(e, reg);
}

/// `base`, joined to itself by AND `n` times, nesting to the left.
pub open spec fn and_chain(base: ExprModel, n: nat) -> ExprModel
    decreases n,
{
    if n == 0 {
        base
    } else {
        ExprModel::Binary(Box::new(and_chain(base, (n - 1) as nat)), Operator::And, Box::new(base))
    }
}

/// Each AND adds one level of nesting. So a chain that calls no function
/// either is nested within what a decode reads, is written, and reads back as
/// itself, or is nested deeper, and writing it fails on its own check.
pub proof fn lemma_nesting(base: ExprModel, n: nat)
    requires
        no_calls(base),
    ensures
        depth(and_chain(base, n)) == depth(base) + n,
        no_calls(and_chain(base, n)),
        depth(base) + n <= RECURSION_LIMIT ==> read_back(and_chain(base, n), Seq::empty(), false)
            == ReadBack::Expr(and_chain(base, n)),
        depth(base) + n > RECURSION_LIMIT ==> read_back(and_chain(base, n), Seq::empty(), false)
            == ReadBack::TooDeep,
    decreases n,
{
    if n > 0 {
        lemma_nesting(base, (n - 1) as nat);
    }
    if depth(base) + n <= RECURSION_LIMIT {
        lemma_round_trip(and_chain(base, n));
    } else {
        lemma_no_calls_registered(and_chain(base, n), Seq::empty());
        lemma_registered_rebind(and_chain(base, n), Seq::empty());
    }
}

/// Converts a value to an opaque byte form and back.
pub trait Serializeable: Sized {
    /// Converts `self` to bytes.
    fn to_bytes(&self) -> Result<Vec<u8>, ProtoError>;

    /// Reads back the output of `to_bytes`. Fails where the bytes call a
    /// function: use `from_bytes_with_registry` for those.
    fn from_bytes(bytes: &[u8]) -> Result<Self, ProtoError>;

    /// Reads back the output of `to_bytes`, binding the functions it calls
    /// through `registry`.
    fn from_bytes_with_registry(bytes: &[u8], registry: &FunctionRegistry) -> Result<
        Self,
        ProtoError,
    >;
}

impl Serializeable for Expr {
    /// Writes the wire form of the expression, then reads it back with a
    /// placeholder lookup that binds every function name to a stand-in, and
    /// hands out the bytes only if that succeeds: that is, only if the
    /// expression is not nested deeper than a decode reads.
    fn to_bytes(&self) -> (r: Result<Vec<u8>, ProtoError>)
        ensures
            depth(self@) <= RECURSION_LIMIT ==> (r matches Ok(b) && b@ == expr_wire(self@)),
            depth(self@) > RECURSION_LIMIT ==> r matches Err(ProtoError::EncodeSelfCheckFailed),
    {
        let mut buf: Vec<u8> = Vec::new();
        encode_expr(self, &mut buf);
        assert(buf@ =~= expr_wire(self@));
        let placeholder = FunctionRegistry::new();
        let check = decode_all(buf.as_slice(), &placeholder, true);
        proof {
            lemma_placeholder_resolves(self@, placeholder@);
            assert(reads_as(check, read_back(self@, placeholder@, true)));
        }
        match check {
            Ok(_) => Ok(buf),
            Err(_) => Err(ProtoError::EncodeSelfCheckFailed),
        }
    }

    /// Reads an expression with an empty registry: every function name is
    /// unresolved. Empty bytes, and the bytes of an expression cut short, are
    /// refused; no input makes it panic.
    fn from_bytes(bytes: &[u8]) -> (r: Result<Expr, ProtoError>)
        ensures
            bytes@.len() == 0 ==> r matches Err(ProtoError::MalformedWireData),
            forall|e: ExprModel|
                #![trigger expr_wire(e)]
                bytes@ == expr_wire(e) ==> reads_as(r, read_back(e, Seq::empty(), false)),
            forall|e: ExprModel|
                #![trigger expr_wire(e)]
                truncates(bytes@, expr_wire(e)) ==> r is Err,
            r matches Ok(x) ==> bytes@ == expr_wire(x@),
            (forall|e: ExprModel| #![trigger expr_wire(e)] bytes@ != expr_wire(e)) ==> r is Err,
            bytes@.len() > 0 && bytes@[0] > 4 ==> r matches Err(ProtoError::MalformedWireData),
    {
        let none = FunctionRegistry::new();
        let r = decode_all(bytes, &none, false);
        proof {
            if r is Ok {
                assert(bytes@ == expr_wire(r->Ok_0@));
            }
        }
        r
    }

    /// Reads an expression, binding each function it calls to the entry of
    /// that name in `registry`. Empty bytes, and the bytes of an expression
    /// cut short, are refused; no input makes it panic.
    fn from_bytes_with_registry(bytes: &[u8], registry: &FunctionRegistry) -> (r: Result<
        Expr,
        ProtoError,
    >)
        ensures
            bytes@.len() == 0 ==> r matches Err(ProtoError::MalformedWireData),
            forall|e: ExprModel|
                #![trigger expr_wire(e)]
                bytes@ == expr_wire(e) ==> reads_as(r, read_back(e, registry@, false)),
            forall|e: ExprModel|
                #![trigger expr_wire(e)]
                truncates(bytes@, expr_wire(e)) ==> r is Err,
            r matches Ok(x) ==> bytes@ == expr_wire(x@),
            (forall|e: ExprModel| #![trigger expr_wire(e)] bytes@ != expr_wire(e)) ==> r is Err,
            bytes@.len() > 0 && bytes@[0] > 4 ==> r matches Err(ProtoError::MalformedWireData),
    {
        let r = decode_all(bytes, registry, false);
        proof {
            if r is Ok {
                assert(bytes@ == expr_wire(r->Ok_0@));
            }
        }
        r
    }
}

} // verus!
