//! Writing logical plans to bytes and reading them back.
use vstd::prelude::*;
use vstd::slice::slice_subrange;
use crate::bytes::{lemma_registry_round_trip, registered};
use crate::error::ProtoError;
use crate::expr::FunctionModel;
use crate::expr_codec::{decode_expr_at, encode_expr, expr_decoded};
use crate::expr_wire::{depth, expr_wire, RECURSION_LIMIT};
use crate::plan::{
    lift, lower, plan_depth, plan_read_back, plan_reads_as, plan_wire, DefaultExtensionCodec,
    EmptyRelation, ExtensionModel, Filter, LogicalExtensionCodec, LogicalPlan, PlanModel, PlanRead,
    PlanWire, SourceModel, TableScan,
};
use crate::registry::FunctionRegistry;
use crate::wire::{
    lemma_split, lemma_trunc_split, read_str, read_varint, rest, starts_with, str_wire, truncates,
    varint, write_bytes, write_str, write_varint,
};

verus! {

/// Appends the wire form of `plan`, with `codec` writing its extension nodes.
fn encode_plan<C: LogicalExtensionCodec>(plan: &LogicalPlan, codec: &C, buf: &mut Vec<u8>) -> (r:
    Result<(), ProtoError>)
    ensures
        lower(plan@, *codec) matches Ok(w) ==> (r is Ok && final(buf)@ == old(buf)@ + plan_wire(
            w,
        )),
        lower(plan@, *codec) matches Err(e) ==> r == Err::<(), ProtoError>(e),
    decreases plan,
{
    let ghost start = buf@;
    match plan {
        LogicalPlan::EmptyRelation(e) => {
            buf.push(0);
            buf.push(if e.produce_one_row { 1 } else { 0 });
            assert(buf@ =~= start + plan_wire(lower(plan@, *codec)->Ok_0));
            Ok(())
        },
        LogicalPlan::Filter(f) => {
            buf.push(1);
            encode_expr(&f.predicate, buf);
            let r = encode_plan(&f.input, codec, buf);
            proof {
                if let Ok(w) = lower(plan@, *codec) {
                    assert(buf@ =~= start + plan_wire(w));
                }
            }
            r
        },
        LogicalPlan::Extension(x) => {
            let mut payload: Vec<u8> = Vec::new();
            match codec.try_encode(x, &mut payload) {
                Ok(()) => {},
                Err(err) => return Err(err),
            }
            buf.push(2);
            write_varint(buf, payload.len() as u64);
            write_bytes(buf, payload.as_slice());
            assert(payload@ =~= codec.encode_spec(x@)->Ok_0);
            assert(buf@ =~= start + plan_wire(lower(plan@, *codec)->Ok_0));
            Ok(())
        },
        LogicalPlan::TableScan(t) => {
            let mut payload: Vec<u8> = Vec::new();
            match codec.try_encode_table_provider(&t.source, &mut payload) {
                Ok(()) => {},
                Err(err) => return Err(err),
            }
            buf.push(3);
            write_str(buf, t.table_name.as_str());
            write_varint(buf, payload.len() as u64);
            write_bytes(buf, payload.as_slice());
            assert(payload@ =~= codec.encode_source_spec(t.source@)->Ok_0);
            assert(buf@ =~= start + plan_wire(lower(plan@, *codec)->Ok_0));
            Ok(())
        },
    }
}

/// What a plan decode at `pos` with depth budget `budget` returns, where the
/// bytes there begin with the wire plan `w`.
pub open spec fn plan_decoded<C: LogicalExtensionCodec>(
    r: Result<(LogicalPlan, usize), ProtoError>,
    w: PlanWire,
    pos: int,
    budget: nat,
    c: C,
    reg: Seq<FunctionModel>,
) -> bool {
    if plan_depth(w) > budget {
        r is Err
    } else {
        match lift(w, c, reg) {
            PlanRead::Plan(p) => r matches Ok((x, end)) && x@ == p && end == pos + plan_wire(w).len(),
            PlanRead::Failed => r is Err,
            PlanRead::Refused(e) => r == Err::<(LogicalPlan, usize), ProtoError>(e),
        }
    }
}

proof fn lemma_plan_tag(buf: Seq<u8>, pos: int, w: PlanWire)
    requires
        0 <= pos <= buf.len(),
        starts_with(rest(buf, pos), plan_wire(w)),
    ensures
        pos < buf.len(),
        buf[pos] == match w {
            PlanWire::Empty(_) => 0u8,
            PlanWire::Filter(_, _) => 1u8,
            PlanWire::Extension(_) => 2u8,
            PlanWire::TableScan(_, _) => 3u8,
        },
        plan_depth(w) >= 1,
{
    assert(rest(buf, pos).subrange(0, plan_wire(w).len() as int)[0] == buf[pos]);
}

proof fn lemma_plan_trunc_tag(buf: Seq<u8>, pos: int, w: PlanWire)
    requires
        0 <= pos < buf.len(),
        truncates(rest(buf, pos), plan_wire(w)),
    ensures
        buf[pos] == match w {
            PlanWire::Empty(_) => 0u8,
            PlanWire::Filter(_, _) => 1u8,
            PlanWire::Extension(_) => 2u8,
            PlanWire::TableScan(_, _) => 3u8,
        },
        truncates(rest(buf, pos + 1), plan_wire(w).drop_first()),
{
    let k = plan_wire(w)[0];
    assert(rest(buf, pos)[0] == buf[pos]);
    assert(plan_wire(w) =~= seq![k] + plan_wire(w).drop_first());
    lemma_trunc_split(buf, pos, seq![k], plan_wire(w).drop_first());
}

/// Reads a plan at `pos`, nested at most `budget` deep, with `codec` reading
/// its extension nodes and functions bound through `reg`.
#[verifier::rlimit(60)]
fn decode_plan_at<C: LogicalExtensionCodec>(
    buf: &[u8],
    pos: usize,
    budget: u64,
    reg: &FunctionRegistry,
    codec: &C,
) -> (r: Result<(LogicalPlan, usize), ProtoError>)
    requires
        pos <= buf@.len(),
    ensures
        r matches Ok((_, end)) ==> pos < end <= buf@.len(),
        r matches Ok((_, end)) ==> exists|w: PlanWire|
            buf@.subrange(pos as int, end as int) == #[trigger] plan_wire(w),
        forall|w: PlanWire|
            #![trigger plan_wire(w)]
            starts_with(rest(buf@, pos as int), plan_wire(w)) ==> plan_decoded(
                r,
                w,
                pos as int,
                budget as nat,
                *codec,
                reg@,
            ),
        forall|w: PlanWire|
            #![trigger plan_wire(w)]
            truncates(rest(buf@, pos as int), plan_wire(w)) ==> r is Err,
    decreases budget,
{
    let total = buf.len();
    if budget == 0 || pos >= total {
        proof {
            assert forall|w: PlanWire|
                #![trigger plan_wire(w)]
                starts_with(rest(buf@, pos as int), plan_wire(w)) implies plan_decoded(
                    Err(ProtoError::MalformedWireData),
                    w,
                    pos as int,
                    budget as nat,
                    *codec,
                    reg@,
                ) by {
                lemma_plan_tag(buf@, pos as int, w);
            }
        }
        return Err(ProtoError::MalformedWireData);
    }
    let t = buf[pos];
    if t == 0 {
        let r = if pos + 1 < total && buf[pos + 1] <= 1 {
            assert(buf@.subrange(pos as int, pos + 2) =~= plan_wire(
                PlanWire::Empty(buf@[pos + 1] == 1),
            ));
            Ok((
                LogicalPlan::EmptyRelation(EmptyRelation { produce_one_row: buf[pos + 1] == 1 }),
                pos + 2,
            ))
        } else {
            Err(ProtoError::MalformedWireData)
        };
        proof {
            assert forall|w: PlanWire|
                #![trigger plan_wire(w)]
                starts_with(rest(buf@, pos as int), plan_wire(w)) implies plan_decoded(
                    r,
                    w,
                    pos as int,
                    budget as nat,
                    *codec,
                    reg@,
                ) by {
                lemma_plan_tag(buf@, pos as int, w);
                assert(rest(buf@, pos as int).subrange(0, plan_wire(w).len() as int)[1] == buf@[pos
                    + 1]);
            }
            assert forall|w: PlanWire|
                #![trigger plan_wire(w)]
                truncates(rest(buf@, pos as int), plan_wire(w)) implies r is Err by {
                lemma_plan_trunc_tag(buf@, pos as int, w);
            }
        }
        r
    } else if t == 1 {
        let pred = decode_expr_at(buf, pos + 1, RECURSION_LIMIT, reg, false);
        let (e, p1) = match pred {
            Ok(v) => v,
            Err(x) => {
                proof {
                    assert forall|w: PlanWire|
                        #![trigger plan_wire(w)]
                        starts_with(rest(buf@, pos as int), plan_wire(w)) implies plan_decoded(
                            Err(x),
                            w,
                            pos as int,
                            budget as nat,
                            *codec,
                            reg@,
                        ) by {
                        lemma_plan_tag(buf@, pos as int, w);
                        if let PlanWire::Filter(e0, in0) = w {
                            lemma_split(buf@, pos as int, seq![1u8], expr_wire(e0) + plan_wire(*in0));
                            lemma_split(buf@, pos + 1, expr_wire(e0), plan_wire(*in0));
                            assert(expr_decoded(
                                pred,
                                e0,
                                pos + 1,
                                RECURSION_LIMIT as nat,
                                reg@,
                                false,
                            ));
                        }
                    }
                }
                return Err(x);
            },
        };
        let inner = decode_plan_at(buf, p1, budget - 1, reg, codec);
        let r = match inner {
            Ok((p, end)) => {
                proof {
                    let wi = choose|w: PlanWire|
                        buf@.subrange(p1 as int, end as int) == #[trigger] plan_wire(w);
                    assert(buf@.subrange(pos as int, end as int) =~= seq![1u8] + (buf@.subrange(
                        pos + 1,
                        p1 as int,
                    ) + buf@.subrange(p1 as int, end as int)));
                    assert(buf@.subrange(pos as int, end as int) =~= plan_wire(
                        PlanWire::Filter(e@, Box::new(wi)),
                    ));
                }
                Ok((LogicalPlan::Filter(Filter { predicate: e, input: Box::new(p) }), end))
            },
            Err(x) => Err(x),
        };
        proof {
            assert forall|w: PlanWire|
                #![trigger plan_wire(w)]
                starts_with(rest(buf@, pos as int), plan_wire(w)) implies plan_decoded(
                    r,
                    w,
                    pos as int,
                    budget as nat,
                    *codec,
                    reg@,
                ) by {
                lemma_plan_tag(buf@, pos as int, w);
                if let PlanWire::Filter(e0, in0) = w {
                    lemma_split(buf@, pos as int, seq![1u8], expr_wire(e0) + plan_wire(*in0));
                    lemma_split(buf@, pos + 1, expr_wire(e0), plan_wire(*in0));
                    assert(expr_decoded(pred, e0, pos + 1, RECURSION_LIMIT as nat, reg@, false));
                    assert(plan_decoded(inner, *in0, p1 as int, (budget - 1) as nat, *codec, reg@));
                }
            }
            assert forall|w: PlanWire|
                #![trigger plan_wire(w)]
                truncates(rest(buf@, pos as int), plan_wire(w)) implies r is Err by {
                lemma_plan_trunc_tag(buf@, pos as int, w);
                if let PlanWire::Filter(e0, in0) = w {
                    assert(plan_wire(w).drop_first() =~= expr_wire(e0) + plan_wire(*in0));
                    lemma_trunc_split(buf@, pos + 1, expr_wire(e0), plan_wire(*in0));
                    if starts_with(rest(buf@, pos + 1), expr_wire(e0)) {
                        assert(expr_decoded(pred, e0, pos + 1, RECURSION_LIMIT as nat, reg@, false));
                    }
                }
            }
        }
        r
    } else if t == 2 {
        let (n, p1) = match read_varint(buf, pos + 1) {
            Some(v) => v,
            None => {
                proof {
                    assert forall|w: PlanWire|
                        #![trigger plan_wire(w)]
                        starts_with(rest(buf@, pos as int), plan_wire(w)) implies false by {
                        lemma_plan_tag(buf@, pos as int, w);
                        if let PlanWire::Extension(b) = w {
                            lemma_split(buf@, pos as int, seq![2u8], varint(b.len()) + b);
                            lemma_split(buf@, pos + 1, varint(b.len()), b);
                            let k = b.len() as u64;
                            assert(varint(k as nat) == varint(b.len()));
                        }
                    }
                }
                return Err(ProtoError::MalformedWireData);
            },
        };
        if n > (total - p1) as u64 {
            proof {
                assert forall|w: PlanWire|
                    #![trigger plan_wire(w)]
                    starts_with(rest(buf@, pos as int), plan_wire(w)) implies false by {
                    lemma_plan_tag(buf@, pos as int, w);
                    if let PlanWire::Extension(b) = w {
                        lemma_split(buf@, pos as int, seq![2u8], varint(b.len()) + b);
                        lemma_split(buf@, pos + 1, varint(b.len()), b);
                        let k = b.len() as u64;
                        assert(varint(k as nat) == varint(b.len()));
                    }
                }
            }
            return Err(ProtoError::MalformedWireData);
        }
        let end = p1 + n as usize;
        let payload = slice_subrange(buf, p1, end);
        let node = codec.try_decode(payload, reg);
        let r = match node {
            Ok(x) => {
                assert(buf@.subrange(pos + 1, p1 as int) == varint(n as nat));
                assert(n as nat == payload@.len());
                assert(buf@.subrange(pos as int, end as int) =~= seq![2u8] + (buf@.subrange(
                    pos + 1,
                    p1 as int,
                ) + payload@));
                assert(buf@.subrange(pos as int, end as int) =~= plan_wire(
                    PlanWire::Extension(payload@),
                ));
                Ok((LogicalPlan::Extension(x), end))
            },
            Err(x) => Err(x),
        };
        proof {
            assert forall|w: PlanWire|
                #![trigger plan_wire(w)]
                starts_with(rest(buf@, pos as int), plan_wire(w)) implies plan_decoded(
                    r,
                    w,
                    pos as int,
                    budget as nat,
                    *codec,
                    reg@,
                ) by {
                lemma_plan_tag(buf@, pos as int, w);
                if let PlanWire::Extension(b) = w {
                    lemma_split(buf@, pos as int, seq![2u8], varint(b.len()) + b);
                    lemma_split(buf@, pos + 1, varint(b.len()), b);
                    let k = b.len() as u64;
                    assert(varint(k as nat) == varint(b.len()));
                    assert(payload@ =~= b);
                }
            }
            assert forall|w: PlanWire|
                #![trigger plan_wire(w)]
                truncates(rest(buf@, pos as int), plan_wire(w)) implies r is Err by {
                lemma_plan_trunc_tag(buf@, pos as int, w);
                if let PlanWire::Extension(b) = w {
                    assert(plan_wire(w).drop_first() =~= varint(b.len()) + b);
                    lemma_trunc_split(buf@, pos + 1, varint(b.len()), b);
                }
            }
        }
        r
    } else if t == 3 {
        decode_table_scan(buf, pos, budget, reg, codec)
    } else {
        proof {
            assert forall|w: PlanWire|
                #![trigger plan_wire(w)]
                starts_with(rest(buf@, pos as int), plan_wire(w)) implies false by {
                lemma_plan_tag(buf@, pos as int, w);
            }
        }
        Err(ProtoError::MalformedWireData)
    }
}

proof fn lemma_scan_parts(buf: Seq<u8>, pos: int, t: Seq<char>, b: Seq<u8>)
    requires
        0 <= pos <= buf.len(),
        starts_with(rest(buf, pos), plan_wire(PlanWire::TableScan(t, b))),
    ensures
        starts_with(rest(buf, pos + 1), str_wire(t)),
        starts_with(rest(buf, pos + 1 + str_wire(t).len()), varint(b.len())),
        starts_with(rest(buf, pos + 1 + str_wire(t).len() + varint(b.len()).len()), b),
        pos + 1 + str_wire(t).len() + varint(b.len()).len() + b.len() <= buf.len(),
        plan_wire(PlanWire::TableScan(t, b)).len() == 1 + str_wire(t).len() + varint(b.len()).len()
            + b.len(),
{
    lemma_split(buf, pos, seq![3u8], str_wire(t) + (varint(b.len()) + b));
    lemma_split(buf, pos + 1, str_wire(t), varint(b.len()) + b);
    lemma_split(buf, pos + 1 + str_wire(t).len(), varint(b.len()), b);
}

#[verifier::rlimit(60)]
fn decode_table_scan<C: LogicalExtensionCodec>(
    buf: &[u8],
    pos: usize,
    budget: u64,
    reg: &FunctionRegistry,
    codec: &C,
) -> (r: Result<(LogicalPlan, usize), ProtoError>)
    requires
        pos < buf@.len(),
        buf@[pos as int] == 3,
        budget > 0,
    ensures
        r matches Ok((_, end)) ==> pos < end <= buf@.len(),
        r matches Ok((_, end)) ==> exists|w: PlanWire|
            buf@.subrange(pos as int, end as int) == #[trigger] plan_wire(w),
        forall|w: PlanWire|
            #![trigger plan_wire(w)]
            starts_with(rest(buf@, pos as int), plan_wire(w)) ==> plan_decoded(
                r,
                w,
                pos as int,
                budget as nat,
                *codec,
                reg@,
            ),
        forall|w: PlanWire|
            #![trigger plan_wire(w)]
            truncates(rest(buf@, pos as int), plan_wire(w)) ==> r is Err,
{
    let total = buf.len();
    let (table_name, p1) = match read_str(buf, pos + 1) {
        Some(v) => v,
        None => {
            proof {
                assert forall|w: PlanWire|
                    #![trigger plan_wire(w)]
                    starts_with(rest(buf@, pos as int), plan_wire(w)) implies false by {
                    lemma_plan_tag(buf@, pos as int, w);
                    if let PlanWire::TableScan(t, b) = w {
                        lemma_scan_parts(buf@, pos as int, t, b);
                    }
                }
            }
            return Err(ProtoError::MalformedWireData);
        },
    };
    let (n, p2) = match read_varint(buf, p1) {
        Some(v) => v,
        None => {
            proof {
                assert forall|w: PlanWire|
                    #![trigger plan_wire(w)]
                    starts_with(rest(buf@, pos as int), plan_wire(w)) implies false by {
                    lemma_plan_tag(buf@, pos as int, w);
                    if let PlanWire::TableScan(t, b) = w {
                        lemma_scan_parts(buf@, pos as int, t, b);
                        let k = b.len() as u64;
                        assert(varint(k as nat) == varint(b.len()));
                    }
                }
            }
            return Err(ProtoError::MalformedWireData);
        },
    };
    if n > (total - p2) as u64 {
        proof {
            assert forall|w: PlanWire|
                #![trigger plan_wire(w)]
                starts_with(rest(buf@, pos as int), plan_wire(w)) implies false by {
                lemma_plan_tag(buf@, pos as int, w);
                if let PlanWire::TableScan(t, b) = w {
                    lemma_scan_parts(buf@, pos as int, t, b);
                    let k = b.len() as u64;
                    assert(varint(k as nat) == varint(b.len()));
                }
            }
        }
        return Err(ProtoError::MalformedWireData);
    }
    let end = p2 + n as usize;
    let payload = slice_subrange(buf, p2, end);
    let source = codec.try_decode_table_provider(payload, reg);
    let r = match source {
        Ok(source) => {
            assert(buf@.subrange(p1 as int, p2 as int) == varint(n as nat));
            assert(n as nat == payload@.len());
            assert(buf@.subrange(pos as int, end as int) =~= seq![3u8] + (buf@.subrange(
                pos + 1,
                p1 as int,
            ) + (buf@.subrange(p1 as int, p2 as int) + payload@)));
            assert(buf@.subrange(pos as int, end as int) =~= plan_wire(
                PlanWire::TableScan(table_name@, payload@),
            ));
            Ok((LogicalPlan::TableScan(TableScan { table_name, source }), end))
        },
        Err(x) => Err(x),
    };
    proof {
        assert forall|w: PlanWire|
            #![trigger plan_wire(w)]
            starts_with(rest(buf@, pos as int), plan_wire(w)) implies plan_decoded(
                r,
                w,
                pos as int,
                budget as nat,
                *codec,
                reg@,
            ) by {
            lemma_plan_tag(buf@, pos as int, w);
            if let PlanWire::TableScan(t, b) = w {
                lemma_scan_parts(buf@, pos as int, t, b);
                let k = b.len() as u64;
                assert(varint(k as nat) == varint(b.len()));
                assert(payload@ =~= b);
            }
        }
        assert forall|w: PlanWire|
            #![trigger plan_wire(w)]
            truncates(rest(buf@, pos as int), plan_wire(w)) implies r is Err by {
            lemma_plan_trunc_tag(buf@, pos as int, w);
            if let PlanWire::TableScan(t, b) = w {
                assert(plan_wire(w).drop_first() =~= str_wire(t) + (varint(b.len()) + b));
                lemma_trunc_split(buf@, pos + 1, str_wire(t), varint(b.len()) + b);
                if starts_with(rest(buf@, pos + 1), str_wire(t)) {
                    lemma_trunc_split(buf@, pos + 1 + str_wire(t).len(), varint(b.len()), b);
                }
            }
        }
    }
    r
}

/// Whether `p` holds an extension node or a table source: something only an
/// extension codec can write.
pub open spec fn has_extension(p: PlanModel) -> bool
    decreases p,
{
    match p {
        PlanModel::Filter(_, input) => has_extension(*input),
        PlanModel::Extension(_) => true,
        PlanModel::TableScan(_, _) => true,
        _ => false,
    }
}

/// Whether a wire plan holds the bytes of an extension node or table source.
pub open spec fn wire_has_extension(w: PlanWire) -> bool
    decreases w,
{
    match w {
        PlanWire::Filter(_, input) => wire_has_extension(*input),
        PlanWire::Extension(_) => true,
        PlanWire::TableScan(_, _) => true,
        _ => false,
    }
}

/// A plan without extension nodes or table sources is written the same way
/// whatever the codec; with the default codec, any other plan is refused
/// with `UnsupportedExtension`.
pub proof fn lemma_lower_default<C: LogicalExtensionCodec>(p: PlanModel, c: C)
    ensures
        !has_extension(p) ==> lower(p, c) is Ok && lower(p, c) == lower(p, DefaultExtensionCodec {  })
            && !wire_has_extension(lower(p, c)->Ok_0),
        has_extension(p) ==> lower(p, DefaultExtensionCodec {  }) == Err::<PlanWire, ProtoError>(
            ProtoError::UnsupportedExtension,
        ),
        lower(p, c) matches Ok(w) ==> plan_depth(w) == plan_model_depth(p),
    decreases p,
{
    if let PlanModel::Filter(_, input) = p {
        lemma_lower_default(*input, c);
    }
}

/// Read with the default codec, a wire plan never yields a plan that holds an
/// extension node or a table source: where the bytes hold one, the read
/// fails, and where it is refused, it is refused with `UnsupportedExtension`.
/// Without such bytes, the read is the same whatever the codec.
pub proof fn lemma_lift_default<C: LogicalExtensionCodec>(w: PlanWire, c: C, reg: Seq<FunctionModel>)
    ensures
        wire_has_extension(w) ==> !(lift(w, DefaultExtensionCodec {  }, reg) is Plan),
        lift(w, DefaultExtensionCodec {  }, reg) matches PlanRead::Refused(e) ==> e
            == ProtoError::UnsupportedExtension,
        !wire_has_extension(w) ==> lift(w, c, reg) == lift(w, DefaultExtensionCodec {  }, reg),
    decreases w,
{
    if let PlanWire::Filter(_, input) = w {
        lemma_lift_default(*input, c, reg);
    }
}

/// Serializes a plan as bytes. No extension codec is given, so a plan with an
/// extension node or a table source fails with `UnsupportedExtension`; any
/// other plan is written as with any codec.
pub fn logical_plan_to_bytes(plan: &LogicalPlan) -> (r: Result<Vec<u8>, ProtoError>)
    ensures
        has_extension(plan@) ==> r == Err::<Vec<u8>, ProtoError>(ProtoError::UnsupportedExtension),
        !has_extension(plan@) ==> (r matches Ok(b) && lower(plan@, DefaultExtensionCodec {  })
            matches Ok(w) && b@ == plan_wire(w)),
        lower(plan@, DefaultExtensionCodec {  }) matches Ok(w) ==> (r matches Ok(b) && b@
            == plan_wire(w)),
        lower(plan@, DefaultExtensionCodec {  }) matches Err(e) ==> r == Err::<Vec<u8>, ProtoError>(e),
{
    proof {
        lemma_lower_default(plan@, DefaultExtensionCodec {  });
    }
    let extension_codec = DefaultExtensionCodec {  };
    logical_plan_to_bytes_with_extension_codec(plan, &extension_codec)
}

/// Serializes a plan as bytes, with `extension_codec` writing its extension
/// nodes and table sources; the error with which the codec declines one is
/// passed on unchanged.
pub fn logical_plan_to_bytes_with_extension_codec<C: LogicalExtensionCodec>(
    plan: &LogicalPlan,
    extension_codec: &C,
) -> (r: Result<Vec<u8>, ProtoError>)
    ensures
        lower(plan@, *extension_codec) matches Ok(w) ==> (r matches Ok(b) && b@ == plan_wire(w)),
        lower(plan@, *extension_codec) matches Err(e) ==> r == Err::<Vec<u8>, ProtoError>(e),
{
    let mut buffer: Vec<u8> = Vec::new();
    match encode_plan(plan, extension_codec, &mut buffer) {
        Ok(()) => {
            assert(buffer@ =~= plan_wire(lower(plan@, *extension_codec)->Ok_0));
            Ok(buffer)
        },
        Err(x) => Err(x),
    }
}

/// Deserializes a plan from bytes, binding functions through `ctx`. No
/// extension codec is given, so bytes that hold an extension node or a table
/// source never yield a plan, and a refusal is `UnsupportedExtension`.
pub fn logical_plan_from_bytes(bytes: &[u8], ctx: &FunctionRegistry) -> (r: Result<
    LogicalPlan,
    ProtoError,
>)
    ensures
        forall|w: PlanWire|
            #![trigger plan_wire(w)]
            bytes@ == plan_wire(w) ==> plan_reads_as(
                r,
                plan_read_back(w, DefaultExtensionCodec {  }, ctx@),
            ),
        forall|w: PlanWire|
            #![trigger plan_wire(w)]
            bytes@ == plan_wire(w) && wire_has_extension(w) ==> r is Err,
        forall|w: PlanWire| #![trigger plan_wire(w)] truncates(bytes@, plan_wire(w)) ==> r is Err,
        r is Ok ==> exists|w: PlanWire| bytes@ == #[trigger] plan_wire(w),
        (forall|w: PlanWire| #![trigger plan_wire(w)] bytes@ != plan_wire(w)) ==> r is Err,
{
    let extension_codec = DefaultExtensionCodec {  };
    let r = logical_plan_from_bytes_with_extension_codec(bytes, ctx, &extension_codec);
    proof {
        assert forall|w: PlanWire|
            #![trigger plan_wire(w)]
            bytes@ == plan_wire(w) && wire_has_extension(w) implies r is Err by {
            lemma_lift_default(w, extension_codec, ctx@);
        }
    }
    r
}

/// Deserializes a plan from bytes, with `extension_codec` reading its
/// extension nodes and table sources in the context `ctx`, through which
/// functions are bound too; the error with which the codec declines is passed
/// on unchanged.
pub fn logical_plan_from_bytes_with_extension_codec<C: LogicalExtensionCodec>(
    bytes: &[u8],
    ctx: &FunctionRegistry,
    extension_codec: &C,
) -> (r: Result<LogicalPlan, ProtoError>)
    ensures
        forall|w: PlanWire|
            #![trigger plan_wire(w)]
            bytes@ == plan_wire(w) ==> plan_reads_as(
                r,
                plan_read_back(w, *extension_codec, ctx@),
            ),
        forall|w: PlanWire| #![trigger plan_wire(w)] truncates(bytes@, plan_wire(w)) ==> r is Err,
        r is Ok ==> exists|w: PlanWire| bytes@ == #[trigger] plan_wire(w),
        (forall|w: PlanWire| #![trigger plan_wire(w)] bytes@ != plan_wire(w)) ==> r is Err,
{
    let res = decode_plan_at(bytes, 0, RECURSION_LIMIT, ctx, extension_codec);
    let r = match res {
        Ok((p, end)) => if end == bytes.len() {
            Ok(p)
        } else {
            Err(ProtoError::MalformedWireData)
        },
        Err(x) => Err(x),
    };
    proof {
        assert forall|w: PlanWire|
            #![trigger plan_wire(w)]
            bytes@ == plan_wire(w) implies plan_reads_as(
                r,
                plan_read_back(w, *extension_codec, ctx@),
            ) by {
            assert(rest(bytes@, 0) =~= bytes@);
            assert(bytes@.subrange(0, bytes@.len() as int) =~= bytes@);
            assert(plan_decoded(res, w, 0, RECURSION_LIMIT as nat, *extension_codec, ctx@));
        }
        assert(rest(bytes@, 0) =~= bytes@);
        assert(bytes@.subrange(0, bytes@.len() as int) =~= bytes@);
    }
    r
}

/// Whether `c` writes every extension node and table source of `p`, and reads
/// the bytes it wrote back, in the context `reg`, as the same node or source.
pub open spec fn faithful<C: LogicalExtensionCodec>(c: C, p: PlanModel, reg: Seq<FunctionModel>) -> bool
    decreases p,
{
    match p {
        PlanModel::Filter(_, input) => faithful(c, *input, reg),
        PlanModel::Extension(n) => match c.encode_spec(n) {
            Ok(b) => c.decode_spec(b, reg) == Ok::<ExtensionModel, ProtoError>(n),
            Err(_) => false,
        },
        PlanModel::TableScan(_, src) => match c.encode_source_spec(src) {
            Ok(b) => c.decode_source_spec(b, reg) == Ok::<SourceModel, ProtoError>(src),
            Err(_) => false,
        },
        _ => true,
    }
}

/// Whether every predicate of `p` is nested no deeper than a decode reads,
/// and calls only functions that are the entries of their names in `reg`.
pub open spec fn plan_registered(p: PlanModel, reg: Seq<FunctionModel>) -> bool
    decreases p,
{
    match p {
        PlanModel::Filter(e, input) => registered(e, reg) && depth(e) <= RECURSION_LIMIT
            && plan_registered(*input, reg),
        _ => true,
    }
}

/// How deeply the nodes of `p` nest.
pub open spec fn plan_model_depth(p: PlanModel) -> nat
    decreases p,
{
    match p {
        PlanModel::Filter(_, input) => 1 + plan_model_depth(*input),
        _ => 1,
    }
}

/// Without an extension codec, a plan that holds an extension node or a table
/// source cannot be written: it is refused with `UnsupportedExtension`.
/// Whatever codec wrote it, its bytes never read back as a plan without one;
/// and where its predicates read back, the read is refused with
/// `UnsupportedExtension`.
pub proof fn lemma_extension_fail_closed<C: LogicalExtensionCodec>(
    p: PlanModel,
    c: C,
    reg: Seq<FunctionModel>,
)
    requires
        has_extension(p),
    ensures
        lower(p, DefaultExtensionCodec {  }) == Err::<PlanWire, ProtoError>(
            ProtoError::UnsupportedExtension,
        ),
        lower(p, c) matches Ok(w) ==> !(plan_read_back(w, DefaultExtensionCodec {  }, reg) is Plan),
        lower(p, c) is Ok && plan_registered(p, reg) && plan_model_depth(p) <= RECURSION_LIMIT
            ==> plan_read_back(lower(p, c)->Ok_0, DefaultExtensionCodec {  }, reg)
            == PlanRead::Refused(ProtoError::UnsupportedExtension),
    decreases p,
{
    lemma_lower_default(p, c);
    if let PlanModel::Filter(e, input) = p {
        lemma_extension_fail_closed(*input, c, reg);
        if plan_registered(p, reg) {
            lemma_registry_round_trip(e, reg);
        }
    }
}

/// A plan written with a codec that is faithful to its extension nodes and
/// table sources, and read back with the same codec and a registry that holds
/// its functions, is the plan itself.
pub proof fn lemma_plan_round_trip<C: LogicalExtensionCodec>(
    p: PlanModel,
    c: C,
    reg: Seq<FunctionModel>,
)
    requires
        faithful(c, p, reg),
        plan_registered(p, reg),
        plan_model_depth(p) <= RECURSION_LIMIT,
    ensures
        lower(p, c) matches Ok(w) && plan_depth(w) == plan_model_depth(p) && plan_read_back(
            w,
            c,
            reg,
        ) == PlanRead::Plan(p),
    decreases p,
{
    if let PlanModel::Filter(e, input) = p {
        lemma_plan_round_trip(*input, c, reg);
        lemma_registry_round_trip(e, reg);
    }
}

} // verus!
