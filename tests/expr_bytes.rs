use datafusion_proto_bytes::bytes::Serializeable;
use datafusion_proto_bytes::error::ProtoError;
use datafusion_proto_bytes::expr::{DataType, Expr, FunctionDef, Operator, ScalarValue};
use datafusion_proto_bytes::registry::FunctionRegistry;

fn a_lt_5() -> Expr {
    Expr::BinaryExpr(
        Box::new(Expr::Column("a".to_string())),
        Operator::Lt,
        Box::new(Expr::Literal(ScalarValue::Int32(5))),
    )
}

fn dummy_def() -> FunctionDef {
    FunctionDef {
        name: "dummy".to_string(),
        arg_types: vec![DataType::Utf8],
        return_type: DataType::Utf8,
    }
}

fn context_with_udf() -> FunctionRegistry {
    let mut ctx = FunctionRegistry::new();
    ctx.register_udf(dummy_def());
    ctx
}

fn dummy_call() -> Expr {
    let ctx = context_with_udf();
    let def = ctx.udf("dummy").expect("could not find udf");
    Expr::ScalarFunction(def, vec![Expr::Literal(ScalarValue::Utf8(String::new()))])
}

#[test]
fn bad_decode() {
    let r = Expr::from_bytes(b"Leet");
    assert_eq!(r, Err(ProtoError::MalformedWireData));
}

#[test]
fn column_lt_literal_round_trip() {
    let expr = a_lt_5();
    let bytes = expr.to_bytes().unwrap();
    let decoded = Expr::from_bytes(&bytes).unwrap();
    assert_eq!(expr, decoded);
}

#[test]
fn column_lt_literal_exact_bytes() {
    let bytes = a_lt_5().to_bytes().unwrap();
    // binary, Lt; column "a"; literal Int32 5
    assert_eq!(bytes, vec![2, 2, 0, 1, b'a', 1, 2, 5]);
}

#[test]
fn udf_roundtrip_with_registry() {
    let ctx = context_with_udf();
    let expr = dummy_call();
    let bytes = expr.to_bytes().unwrap();
    let deserialized_expr = Expr::from_bytes_with_registry(&bytes, &ctx).unwrap();
    assert_eq!(expr, deserialized_expr);
}

#[test]
fn udf_roundtrip_without_registry() {
    let expr = dummy_call();
    let bytes = expr.to_bytes().unwrap();
    let r = Expr::from_bytes(&bytes);
    assert_eq!(r, Err(ProtoError::UnresolvedFunction("dummy".to_string())));
}

#[test]
fn udf_written_with_placeholder_check() {
    // the function is unknown when writing: the check binds it to a stand-in
    let expr = Expr::ScalarFunction(
        FunctionDef { name: "nowhere".to_string(), arg_types: vec![], return_type: DataType::Int64 },
        vec![],
    );
    assert!(expr.to_bytes().is_ok());
}

#[test]
fn roundtrip_deeply_nested() {
    let n_max = 100;
    for n in 1..n_max {
        let mut expr = a_lt_5();
        for _ in 0..n {
            expr = Expr::BinaryExpr(Box::new(expr), Operator::And, Box::new(a_lt_5()));
        }
        let bytes = match expr.to_bytes() {
            Ok(bytes) => bytes,
            Err(e) => {
                assert_eq!(e, ProtoError::EncodeSelfCheckFailed);
                // depth of the chain is n + 2
                assert_eq!(n + 2, 101);
                return;
            }
        };
        let decoded_expr =
            Expr::from_bytes(&bytes).expect("serialization worked, so deserialization should work as well");
        assert_eq!(expr, decoded_expr);
    }
    panic!("did not find a 'too deeply nested' expression, tested up to a depth of {n_max}")
}

#[test]
fn empty_bytes_are_malformed() {
    assert_eq!(Expr::from_bytes(&[]), Err(ProtoError::MalformedWireData));
}

#[test]
fn truncations_fail() {
    let bytes = dummy_call().to_bytes().unwrap();
    let ctx = context_with_udf();
    for k in 0..bytes.len() {
        assert!(Expr::from_bytes_with_registry(&bytes[..k], &ctx).is_err());
    }
}

#[test]
fn trailing_bytes_are_malformed() {
    let mut bytes = a_lt_5().to_bytes().unwrap();
    bytes.push(0);
    assert_eq!(Expr::from_bytes(&bytes), Err(ProtoError::MalformedWireData));
}

#[test]
fn literals_round_trip() {
    let values = vec![
        ScalarValue::Null,
        ScalarValue::Boolean(true),
        ScalarValue::Boolean(false),
        ScalarValue::Int32(-7),
        ScalarValue::Int32(i32::MIN),
        ScalarValue::Int64(i64::MAX),
        ScalarValue::Int64(-1),
        ScalarValue::Utf8("héllo ✓".to_string()),
    ];
    for v in values {
        let e = Expr::Not(Box::new(Expr::Literal(v)));
        let bytes = e.to_bytes().unwrap();
        assert_eq!(Expr::from_bytes(&bytes).unwrap(), e);
    }
}

#[test]
fn varint_of_large_literal() {
    // 300 = 0b1_0010_1100: two LEB128 bytes
    let bytes = Expr::Literal(ScalarValue::Int64(300)).to_bytes().unwrap();
    assert_eq!(bytes, vec![1, 3, 0xAC, 0x02]);
}

#[test]
fn first_registry_entry_wins() {
    let mut ctx = FunctionRegistry::new();
    ctx.register_udf(dummy_def());
    ctx.register_udf(FunctionDef { name: "dummy".to_string(), arg_types: vec![], return_type: DataType::Null });
    assert_eq!(ctx.udf("dummy"), Some(dummy_def()));
    assert_eq!(ctx.udf("other"), None);
}

#[test]
fn bad_operator_byte_is_malformed() {
    let mut bytes = a_lt_5().to_bytes().unwrap();
    bytes[1] = 9;
    assert_eq!(Expr::from_bytes(&bytes), Err(ProtoError::MalformedWireData));
}

#[test]
fn invalid_utf8_is_malformed() {
    // column with one byte 0xFF as its name
    let bytes = vec![0, 1, 0xFF];
    assert_eq!(Expr::from_bytes(&bytes), Err(ProtoError::MalformedWireData));
}

#[test]
fn random_bytes_never_panic() {
    let ctx = context_with_udf();
    let mut state: u64 = 0x9E37_79B9_7F4A_7C15;
    for len in 0..200usize {
        let mut bytes = Vec::with_capacity(len);
        for _ in 0..len {
            state = state.wrapping_mul(6364136223846793005).wrapping_add(1442695040888963407);
            bytes.push((state >> 56) as u8 % 8);
        }
        let _ = Expr::from_bytes(&bytes);
        let _ = Expr::from_bytes_with_registry(&bytes, &ctx);
    }
}

#[test]
fn nested_calls_round_trip() {
    let ctx = context_with_udf();
    let inner = dummy_call();
    let def = ctx.udf("dummy").unwrap();
    let expr = Expr::BinaryExpr(
        Box::new(Expr::ScalarFunction(def, vec![inner, Expr::Column("b".to_string())])),
        Operator::Eq,
        Box::new(Expr::Not(Box::new(Expr::Literal(ScalarValue::Boolean(true))))),
    );
    let bytes = expr.to_bytes().unwrap();
    assert_eq!(Expr::from_bytes_with_registry(&bytes, &ctx).unwrap(), expr);
}

#[test]
fn registry_lists_names() {
    let mut ctx = context_with_udf();
    ctx.register_udf(FunctionDef { name: "other".to_string(), arg_types: vec![], return_type: DataType::Int64 });
    assert_eq!(ctx.udfs(), vec!["dummy".to_string(), "other".to_string()]);
    assert!(FunctionRegistry::new().udfs().is_empty());
}

#[test]
fn non_canonical_varint_is_malformed() {
    // column whose name length 1 is written in two bytes (0x81 0x00)
    assert_eq!(Expr::from_bytes(&[0, 0x81, 0x00, b'a']), Err(ProtoError::MalformedWireData));
}

#[test]
fn deep_unresolvable_and_resolvable() {
    let mut expr = a_lt_5();
    for _ in 0..100 {
        expr = Expr::Not(Box::new(expr));
    }
    let mut bytes = vec![3u8; 100];
    bytes.extend(a_lt_5().to_bytes().unwrap());
    assert_eq!(Expr::from_bytes(&bytes), Err(ProtoError::MalformedWireData));
    assert_eq!(expr.to_bytes(), Err(ProtoError::EncodeSelfCheckFailed));
}
