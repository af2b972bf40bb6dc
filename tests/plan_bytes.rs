use datafusion_proto_bytes::error::ProtoError;
use datafusion_proto_bytes::expr::{DataType, Expr, FunctionDef, Operator, ScalarValue};
use datafusion_proto_bytes::plan::{
    DefaultExtensionCodec, EmptyRelation, Extension, Filter, LogicalExtensionCodec, LogicalPlan,
    TableScan, TableSource,
};
use datafusion_proto_bytes::plan_codec::{
    logical_plan_from_bytes, logical_plan_from_bytes_with_extension_codec, logical_plan_to_bytes,
    logical_plan_to_bytes_with_extension_codec,
};
use datafusion_proto_bytes::registry::FunctionRegistry;

/// Writes a node as one byte of name length, the name, then the detail.
struct TopKCodec;

impl LogicalExtensionCodec for TopKCodec {
    fn try_decode(&self, buf: &[u8], _ctx: &FunctionRegistry) -> Result<Extension, ProtoError> {
        let n = *buf.first().ok_or(ProtoError::MalformedWireData)? as usize;
        if buf.len() < 1 + n {
            return Err(ProtoError::MalformedWireData);
        }
        let name = String::from_utf8(buf[1..1 + n].to_vec()).map_err(|_| ProtoError::MalformedWireData)?;
        if name != "TopK" {
            return Err(ProtoError::UnsupportedExtension);
        }
        Ok(Extension { name, detail: buf[1 + n..].to_vec() })
    }

    fn try_encode(&self, node: &Extension, buf: &mut Vec<u8>) -> Result<(), ProtoError> {
        if node.name != "TopK" {
            return Err(ProtoError::UnsupportedExtension);
        }
        buf.push(node.name.len() as u8);
        buf.extend_from_slice(node.name.as_bytes());
        buf.extend_from_slice(&node.detail);
        Ok(())
    }

    fn try_decode_table_provider(&self, buf: &[u8], _ctx: &FunctionRegistry) -> Result<TableSource, ProtoError> {
        match buf.split_first() {
            Some((0, detail)) => Ok(TableSource { kind: "memory".to_string(), detail: detail.to_vec() }),
            _ => Err(ProtoError::UnsupportedExtension),
        }
    }

    fn try_encode_table_provider(&self, source: &TableSource, buf: &mut Vec<u8>) -> Result<(), ProtoError> {
        if source.kind != "memory" {
            return Err(ProtoError::Collaborator(format!("unknown source {}", source.kind)));
        }
        buf.push(0);
        buf.extend_from_slice(&source.detail);
        Ok(())
    }
}

fn scan(kind: &str) -> LogicalPlan {
    LogicalPlan::TableScan(TableScan {
        table_name: "t".to_string(),
        source: TableSource { kind: kind.to_string(), detail: vec![1, 2, 3] },
    })
}

#[test]
fn table_scan_without_codec_fails() {
    assert_eq!(logical_plan_to_bytes(&scan("memory")), Err(ProtoError::UnsupportedExtension));
    let bytes = logical_plan_to_bytes_with_extension_codec(&scan("memory"), &TopKCodec).unwrap();
    let ctx = FunctionRegistry::new();
    assert_eq!(logical_plan_from_bytes(&bytes, &ctx), Err(ProtoError::UnsupportedExtension));
}

#[test]
fn table_scan_round_trip_with_codec() {
    let ctx = FunctionRegistry::new();
    let plan = LogicalPlan::Filter(Filter { predicate: a_lt_5(), input: Box::new(scan("memory")) });
    let bytes = logical_plan_to_bytes_with_extension_codec(&plan, &TopKCodec).unwrap();
    let back = logical_plan_from_bytes_with_extension_codec(&bytes, &ctx, &TopKCodec).unwrap();
    assert_eq!(back, plan);
}

#[test]
fn table_scan_bytes() {
    let bytes = logical_plan_to_bytes_with_extension_codec(&scan("memory"), &TopKCodec).unwrap();
    assert_eq!(bytes, vec![3, 1, b't', 4, 0, 1, 2, 3]);
}

#[test]
fn collaborator_error_is_passed_on() {
    assert_eq!(
        logical_plan_to_bytes_with_extension_codec(&scan("s3"), &TopKCodec),
        Err(ProtoError::Collaborator("unknown source s3".to_string()))
    );
}

fn empty(produce_one_row: bool) -> LogicalPlan {
    LogicalPlan::EmptyRelation(EmptyRelation { produce_one_row })
}

fn top_k() -> LogicalPlan {
    LogicalPlan::Extension(Extension { name: "TopK".to_string(), detail: vec![10, 0] })
}

fn a_lt_5() -> Expr {
    Expr::BinaryExpr(
        Box::new(Expr::Column("a".to_string())),
        Operator::Lt,
        Box::new(Expr::Literal(ScalarValue::Int32(5))),
    )
}

#[test]
fn empty_relation_round_trip() {
    let ctx = FunctionRegistry::new();
    for one in [false, true] {
        let bytes = logical_plan_to_bytes(&empty(one)).unwrap();
        assert_eq!(bytes, vec![0, one as u8]);
        let back = logical_plan_from_bytes(&bytes, &ctx).unwrap();
        assert!(matches!(back, LogicalPlan::EmptyRelation(EmptyRelation { produce_one_row }) if produce_one_row == one));
    }
}

#[test]
fn filter_round_trip() {
    let ctx = FunctionRegistry::new();
    let plan = LogicalPlan::Filter(Filter { predicate: a_lt_5(), input: Box::new(empty(true)) });
    let bytes = logical_plan_to_bytes(&plan).unwrap();
    assert_eq!(logical_plan_from_bytes(&bytes, &ctx).unwrap(), plan);
}

#[test]
fn filter_with_udf_needs_registry() {
    let def = FunctionDef { name: "dummy".to_string(), arg_types: vec![DataType::Utf8], return_type: DataType::Utf8 };
    let pred = Expr::ScalarFunction(def.clone(), vec![Expr::Literal(ScalarValue::Utf8(String::new()))]);
    let plan = LogicalPlan::Filter(Filter { predicate: pred, input: Box::new(empty(false)) });
    let bytes = logical_plan_to_bytes(&plan).unwrap();
    let mut ctx = FunctionRegistry::new();
    assert_eq!(
        logical_plan_from_bytes(&bytes, &ctx),
        Err(ProtoError::UnresolvedFunction("dummy".to_string()))
    );
    ctx.register_udf(def);
    assert_eq!(logical_plan_from_bytes(&bytes, &ctx).unwrap(), plan);
}

#[test]
fn extension_without_codec_fails_to_encode() {
    let plan = LogicalPlan::Filter(Filter { predicate: a_lt_5(), input: Box::new(top_k()) });
    assert_eq!(logical_plan_to_bytes(&plan), Err(ProtoError::UnsupportedExtension));
}

#[test]
fn extension_without_codec_fails_to_decode() {
    let ctx = FunctionRegistry::new();
    let bytes = logical_plan_to_bytes_with_extension_codec(&top_k(), &TopKCodec).unwrap();
    assert_eq!(logical_plan_from_bytes(&bytes, &ctx), Err(ProtoError::UnsupportedExtension));
}

#[test]
fn extension_round_trip_with_codec() {
    let ctx = FunctionRegistry::new();
    let plan = LogicalPlan::Filter(Filter { predicate: a_lt_5(), input: Box::new(top_k()) });
    let bytes = logical_plan_to_bytes_with_extension_codec(&plan, &TopKCodec).unwrap();
    let back = logical_plan_from_bytes_with_extension_codec(&bytes, &ctx, &TopKCodec).unwrap();
    assert_eq!(back, plan);
}

#[test]
fn extension_bytes_are_framed() {
    let bytes = logical_plan_to_bytes_with_extension_codec(&top_k(), &TopKCodec).unwrap();
    assert_eq!(bytes, vec![2, 7, 4, b'T', b'o', b'p', b'K', 10, 0]);
}

#[test]
fn codec_refusal_is_passed_on() {
    let other = LogicalPlan::Extension(Extension { name: "Other".to_string(), detail: vec![] });
    assert_eq!(
        logical_plan_to_bytes_with_extension_codec(&other, &TopKCodec),
        Err(ProtoError::UnsupportedExtension)
    );
}

#[test]
fn default_codec_declines() {
    let codec = DefaultExtensionCodec {};
    let mut buf = Vec::new();
    assert_eq!(codec.try_decode(&[1, 2], &FunctionRegistry::new()), Err(ProtoError::UnsupportedExtension));
    assert_eq!(
        codec.try_encode(&Extension { name: "TopK".to_string(), detail: vec![] }, &mut buf),
        Err(ProtoError::UnsupportedExtension)
    );
    assert_eq!(codec.try_decode_table_provider(&[0], &FunctionRegistry::new()), Err(ProtoError::UnsupportedExtension));
    let source = TableSource { kind: "memory".to_string(), detail: vec![] };
    assert_eq!(codec.try_encode_table_provider(&source, &mut buf), Err(ProtoError::UnsupportedExtension));
    assert!(buf.is_empty());
}

#[test]
fn malformed_plan_bytes() {
    let ctx = FunctionRegistry::new();
    assert_eq!(logical_plan_from_bytes(&[], &ctx), Err(ProtoError::MalformedWireData));
    assert_eq!(logical_plan_from_bytes(&[0, 2], &ctx), Err(ProtoError::MalformedWireData));
    assert_eq!(logical_plan_from_bytes(&[9], &ctx), Err(ProtoError::MalformedWireData));
    assert_eq!(logical_plan_from_bytes(&[0, 0, 0], &ctx), Err(ProtoError::MalformedWireData));
    // an extension whose length runs past the end
    assert_eq!(logical_plan_from_bytes(&[2, 5, 1], &ctx), Err(ProtoError::MalformedWireData));
}

#[test]
fn plan_truncations_fail() {
    let ctx = FunctionRegistry::new();
    let plan = LogicalPlan::Filter(Filter { predicate: a_lt_5(), input: Box::new(top_k()) });
    let bytes = logical_plan_to_bytes_with_extension_codec(&plan, &TopKCodec).unwrap();
    for k in 0..bytes.len() {
        assert!(logical_plan_from_bytes_with_extension_codec(&bytes[..k], &ctx, &TopKCodec).is_err());
    }
}
