//! Logical plans, the extension codecs that carry engine-specific plan
//! nodes, and the plan's wire form.
use vstd::prelude::*;
use crate::bytes::{read_back, ReadBack};
use crate::error::ProtoError;
use crate::expr::{Expr, ExprModel, FunctionModel};
use crate::registry::FunctionRegistry;
use crate::expr_wire::{expr_wire, RECURSION_LIMIT};
use crate::wire::{str_wire, varint};

verus! {

/// A relation with no columns, and one row or none.
#[derive(Clone, Copy, Debug, PartialEq, Eq)]
pub struct EmptyRelation {
    pub produce_one_row: bool,
}

/// The rows of `input` for which `predicate` holds.
#[derive(Debug, PartialEq)]
pub struct Filter {
    pub predicate: Expr,
    pub input: Box<LogicalPlan>,
}

/// A plan node that the engine's user defines: its kind and its settings.
/// Only an extension codec that knows the kind can write or read it.
#[derive(Clone, Debug, PartialEq)]
pub struct Extension {
    pub name: String,
    pub detail: Vec<u8>,
}

/// A handle to the connector that provides a table's rows: its kind and its
/// settings. Only an extension codec that knows the kind can write or read it.
#[derive(Clone, Debug, PartialEq)]
pub struct TableSource {
    pub kind: String,
    pub detail: Vec<u8>,
}

/// The rows of a table, read through its source.
#[derive(Clone, Debug, PartialEq)]
pub struct TableScan {
    pub table_name: String,
    pub source: TableSource,
}

/// A logical plan.
#[derive(Debug, PartialEq)]
pub enum LogicalPlan {
    EmptyRelation(EmptyRelation),
    Filter(Filter),
    Extension(Extension),
    TableScan(TableScan),
}

/// The model of an extension node.
pub struct ExtensionModel {
    pub name: Seq<char>,
    pub detail: Seq<u8>,
}

/// The model of a table source.
pub struct SourceModel {
    pub kind: Seq<char>,
    pub detail: Seq<u8>,
}

/// The model of a plan.
pub enum PlanModel {
    Empty(bool),
    Filter(ExprModel, Box<PlanModel>),
    Extension(ExtensionModel),
    TableScan(Seq<char>, SourceModel),
}

/// A plan as it stands on the wire: each extension node and table source
/// replaced by the bytes that an extension codec made of it.
pub enum PlanWire {
    Empty(bool),
    Filter(ExprModel, Box<PlanWire>),
    Extension(Seq<u8>),
    TableScan(Seq<char>, Seq<u8>),
}

impl View for TableSource {
    type V = SourceModel;

    open spec fn view(&self) -> SourceModel {
        SourceModel { kind: self.kind@, detail: self.detail@ }
    }
}

impl View for Extension {
    type V = ExtensionModel;

    open spec fn view(&self) -> ExtensionModel {
        ExtensionModel { name: self.name@, detail: self.detail@ }
    }
}

pub open spec fn plan_model(p: LogicalPlan) -> PlanModel
    decreases p,
{
    match p {
        LogicalPlan::EmptyRelation(e) => PlanModel::Empty(e.produce_one_row),
        LogicalPlan::Filter(f) => PlanModel::Filter(f.predicate@, Box::new(plan_model(*f.input))),
        LogicalPlan::Extension(x) => PlanModel::Extension(x@),
        LogicalPlan::TableScan(t) => PlanModel::TableScan(t.table_name@, t.source@),
    }
}

impl View for LogicalPlan {
    type V = PlanModel;

    open spec fn view(&self) -> PlanModel {
        plan_model(*self)
    }
}

/// Writes and reads the extension nodes and table sources of a plan.
/// Implemented by the user of the library for the kinds it defines.
pub trait LogicalExtensionCodec {
    /// The bytes this codec writes for `node`, or the error with which it
    /// declines; unless an implementation says more, it declines every node.
    open spec fn encode_spec(&self, node: ExtensionModel) -> Result<Seq<u8>, ProtoError> {
        Err(ProtoError::UnsupportedExtension)
    }

    /// The node this codec reads from `buf` in the context `ctx`, or the error
    /// with which it declines; unless an implementation says more, it
    /// declines all bytes.
    open spec fn decode_spec(&self, buf: Seq<u8>, ctx: Seq<FunctionModel>) -> Result<
        ExtensionModel,
        ProtoError,
    > {
        Err(ProtoError::UnsupportedExtension)
    }

    /// The bytes this codec writes for a table source, or the error with
    /// which it declines; unless an implementation says more, it declines
    /// every source.
    open spec fn encode_source_spec(&self, source: SourceModel) -> Result<Seq<u8>, ProtoError> {
        Err(ProtoError::UnsupportedExtension)
    }

    /// The table source this codec reads from `buf` in the context `ctx`, or
    /// the error with which it declines; unless an implementation says more,
    /// it declines all bytes.
    open spec fn decode_source_spec(&self, buf: Seq<u8>, ctx: Seq<FunctionModel>) -> Result<
        SourceModel,
        ProtoError,
    > {
        Err(ProtoError::UnsupportedExtension)
    }

    /// Reads an extension node from `buf`, in the context `ctx`.
    fn try_decode(&self, buf: &[u8], ctx: &FunctionRegistry) -> (r: Result<Extension, ProtoError>)
        ensures
            self.decode_spec(buf@, ctx@) matches Ok(n) ==> (r matches Ok(x) && x@ == n),
            self.decode_spec(buf@, ctx@) matches Err(e) ==> r == Err::<Extension, ProtoError>(e),
    ;

    /// Appends the bytes of `node` to `buf`.
    fn try_encode(&self, node: &Extension, buf: &mut Vec<u8>) -> (r: Result<(), ProtoError>)
        ensures
            self.encode_spec(node@) matches Ok(b) ==> (r is Ok && final(buf)@ == old(buf)@ + b),
            self.encode_spec(node@) matches Err(e) ==> r == Err::<(), ProtoError>(e),
    ;

    /// Reads a table source from `buf`, in the context `ctx`.
    fn try_decode_table_provider(&self, buf: &[u8], ctx: &FunctionRegistry) -> (r: Result<
        TableSource,
        ProtoError,
    >)
        ensures
            self.decode_source_spec(buf@, ctx@) matches Ok(t) ==> (r matches Ok(x) && x@ == t),
            self.decode_source_spec(buf@, ctx@) matches Err(e) ==> r == Err::<TableSource, ProtoError>(e),
    ;

    /// Appends the bytes of a table source to `buf`.
    fn try_encode_table_provider(&self, source: &TableSource, buf: &mut Vec<u8>) -> (r: Result<
        (),
        ProtoError,
    >)
        ensures
            self.encode_source_spec(source@) matches Ok(b) ==> (r is Ok && final(buf)@ == old(
                buf,
            )@ + b),
            self.encode_source_spec(source@) matches Err(e) ==> r == Err::<(), ProtoError>(e),
    ;
}

/// The codec used where the caller gives none: it declines every node and
/// every source with `UnsupportedExtension`, and writes nothing.
#[derive(Debug)]
pub struct DefaultExtensionCodec {}

impl LogicalExtensionCodec for DefaultExtensionCodec {
    fn try_decode(&self, buf: &[u8], ctx: &FunctionRegistry) -> (r: Result<Extension, ProtoError>)
        ensures
            r == Err::<Extension, ProtoError>(ProtoError::UnsupportedExtension),
    {
        Err(ProtoError::UnsupportedExtension)
    }

    fn try_encode(&self, node: &Extension, buf: &mut Vec<u8>) -> (r: Result<(), ProtoError>)
        ensures
            r == Err::<(), ProtoError>(ProtoError::UnsupportedExtension),
            final(buf)@ == old(buf)@,
    {
        Err(ProtoError::UnsupportedExtension)
    }

    fn try_decode_table_provider(&self, buf: &[u8], ctx: &FunctionRegistry) -> (r: Result<
        TableSource,
        ProtoError,
    >)
        ensures
            r == Err::<TableSource, ProtoError>(ProtoError::UnsupportedExtension),
    {
        Err(ProtoError::UnsupportedExtension)
    }

    fn try_encode_table_provider(&self, source: &TableSource, buf: &mut Vec<u8>) -> (r: Result<
        (),
        ProtoError,
    >)
        ensures
            r == Err::<(), ProtoError>(ProtoError::UnsupportedExtension),
            final(buf)@ == old(buf)@,
    {
        Err(ProtoError::UnsupportedExtension)
    }
}

/// The wire plan of `p` under codec `c`, or the error with which `c`
/// declines the first of its extension nodes and table sources, in prefix
/// order.
pub open spec fn lower<C: LogicalExtensionCodec>(p: PlanModel, c: C) -> Result<PlanWire, ProtoError>
    decreases p,
{
    match p {
        PlanModel::Empty(b) => Ok(PlanWire::Empty(b)),
        PlanModel::Filter(e, input) => match lower(*input, c) {
            Ok(w) => Ok(PlanWire::Filter(e, Box::new(w))),
            Err(x) => Err(x),
        },
        PlanModel::Extension(n) => match c.encode_spec(n) {
            Ok(b) => Ok(PlanWire::Extension(b)),
            Err(x) => Err(x),
        },
        PlanModel::TableScan(t, src) => match c.encode_source_spec(src) {
            Ok(b) => Ok(PlanWire::TableScan(t, b)),
            Err(x) => Err(x),
        },
    }
}

/// The bytes of a wire plan, in prefix order.
pub open spec fn plan_wire(w: PlanWire) -> Seq<u8>
    decreases w,
{
    match w {
        PlanWire::Empty(b) => seq![0u8, if b { 1u8 } else { 0u8 }],
        PlanWire::Filter(e, input) => seq![1u8] + (expr_wire(e) + plan_wire(*input)),
        PlanWire::Extension(b) => seq![2u8] + (varint(b.len()) + b),
        PlanWire::TableScan(t, b) => seq![3u8] + (str_wire(t) + (varint(b.len()) + b)),
    }
}

/// How deeply plan nodes nest.
pub open spec fn plan_depth(w: PlanWire) -> nat
    decreases w,
{
    match w {
        PlanWire::Filter(_, input) => 1 + plan_depth(*input),
        _ => 1,
    }
}

/// What reading a wire plan gives.
pub enum PlanRead {
    /// The plan.
    Plan(PlanModel),
    /// A predicate could not be read back (an unresolved function, or one
    /// nested too deep), or plan nodes nest too deep.
    Failed,
    /// The codec declined an extension node or table source with this error.
    Refused(ProtoError),
}

/// The plan read from a wire plan, in prefix order, with codec `c` and
/// functions bound through `reg`.
pub open spec fn lift<C: LogicalExtensionCodec>(w: PlanWire, c: C, reg: Seq<FunctionModel>) -> PlanRead
    decreases w,
{
    match w {
        PlanWire::Empty(b) => PlanRead::Plan(PlanModel::Empty(b)),
        PlanWire::Filter(e, input) => match read_back(e, reg, false) {
            ReadBack::Expr(m) => match lift(*input, c, reg) {
                PlanRead::Plan(p) => PlanRead::Plan(PlanModel::Filter(m, Box::new(p))),
                other => other,
            },
            _ => PlanRead::Failed,
        },
        PlanWire::Extension(b) => match c.decode_spec(b, reg) {
            Ok(n) => PlanRead::Plan(PlanModel::Extension(n)),
            Err(x) => PlanRead::Refused(x),
        },
        PlanWire::TableScan(t, b) => match c.decode_source_spec(b, reg) {
            Ok(src) => PlanRead::Plan(PlanModel::TableScan(t, src)),
            Err(x) => PlanRead::Refused(x),
        },
    }
}

/// What reading back the bytes of `w` gives: a failure if plan nodes nest
/// deeper than a decode reads.
pub open spec fn plan_read_back<C: LogicalExtensionCodec>(w: PlanWire, c: C, reg: Seq<
    FunctionModel,
>) -> PlanRead {
    if plan_depth(w) > RECURSION_LIMIT {
        PlanRead::Failed
    } else {
        lift(w, c, reg)
    }
}

/// `r` is what a plan decode returns for the outcome `o`.
pub open spec fn plan_reads_as(r: Result<LogicalPlan, ProtoError>, o: PlanRead) -> bool {
    match o {
        PlanRead::Plan(p) => r matches Ok(x) && x@ == p,
        PlanRead::Failed => r is Err,
        PlanRead::Refused(e) => r == Err::<LogicalPlan, ProtoError>(e),
    }
}

} // verus!
