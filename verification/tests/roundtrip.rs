//! Round trips through the serializer: scalar markup has its exact literal
//! form, and values sent through the serializer, the transform pipeline and
//! the decoder come back unchanged.

use gdsave::de::from_bytes;
use gdsave::ser::Serializer;
use gdsave::transform::transform_encode;
use gdsave::value::Value;

#[test]
fn integer_markup_is_exact() {
    let mut ser = Serializer::new();
    ser.serialize_i64(-9223372036854775808).unwrap();
    ser.serialize_i64(0).unwrap();
    ser.serialize_i32(42).unwrap();
    ser.serialize_u64(18446744073709551615).unwrap();
    ser.serialize_u32(7).unwrap();
    assert_eq!(
        b"<i>-9223372036854775808</i><i>0</i><i>42</i><i>18446744073709551615</i><i>7</i>"
            .to_vec(),
        ser.into_inner()
    );
}

#[test]
fn boolean_markup_is_exact() {
    let mut ser = Serializer::new();
    ser.serialize_bool(true).unwrap();
    assert_eq!(b"<t/>".to_vec(), ser.into_inner());
}

#[test]
fn string_markup_escapes() {
    let mut ser = Serializer::new();
    ser.serialize_str(b"a<b&c>d").unwrap();
    assert_eq!(b"<s>a&lt;b&amp;c&gt;d</s>".to_vec(), ser.into_inner());
}

#[test]
fn real_markup_is_exact() {
    let mut ser = Serializer::new();
    ser.serialize_real_text(b"1.25").unwrap();
    assert_eq!(b"<r>1.25</r>".to_vec(), ser.into_inner());
}

/// Embed serialized scalar markup as a dictionary value in a full document
/// and decode it back.
fn round_trip(markup: &[u8]) -> Value {
    let mut xml = Vec::new();
    xml.extend_from_slice(br#"<?xml version="1.0"?><plist version="1.0" gjver="2.0"><d><k>x</k>"#);
    xml.extend_from_slice(markup);
    xml.extend_from_slice(b"</d></plist>");
    let decoded = from_bytes::<Value>(&transform_encode(&xml).unwrap()).unwrap();
    match decoded.t {
        Value::Dict(mut entries) => {
            assert_eq!(1, entries.len());
            let (k, v) = entries.pop().unwrap();
            assert_eq!(b"x".to_vec(), k);
            v
        }
        other => panic!("expected a dictionary, got {:?}", other),
    }
}

#[test]
fn integer_round_trips() {
    let mut ser = Serializer::new();
    ser.serialize_i32(-123).unwrap();
    assert_eq!(Value::Int(-123), round_trip(&ser.into_inner()));

    let mut ser = Serializer::new();
    ser.serialize_i32(i32::MAX).unwrap();
    assert_eq!(Value::Int(i32::MAX), round_trip(&ser.into_inner()));

    let mut ser = Serializer::new();
    ser.serialize_i32(i32::MIN).unwrap();
    assert_eq!(Value::Int(i32::MIN), round_trip(&ser.into_inner()));
}

#[test]
fn boolean_round_trips() {
    let mut ser = Serializer::new();
    ser.serialize_bool(true).unwrap();
    assert_eq!(Value::Bool(true), round_trip(&ser.into_inner()));
}

#[test]
fn string_round_trips() {
    let text = b"Lorem & <ipsum> \"dolor\" 'sit'";
    let mut ser = Serializer::new();
    ser.serialize_str(text).unwrap();
    assert_eq!(Value::Str(text.to_vec()), round_trip(&ser.into_inner()));
}

#[test]
fn real_text_round_trips() {
    let mut ser = Serializer::new();
    ser.serialize_real_text(b"3.14159").unwrap();
    assert_eq!(
        Value::Real(b"3.14159".to_vec()),
        round_trip(&ser.into_inner())
    );
}

#[test]
fn composite_markup_is_exact() {
    let mut ser = Serializer::new();
    ser.serialize_value(&Value::Dict(vec![
        (b"a".to_vec(), Value::Int(1)),
        (b"b".to_vec(), Value::Arr(vec![Value::Str(b"x".to_vec()), Value::Bool(true)])),
    ]))
    .unwrap();
    assert_eq!(
        b"<d><k>a</k><i>1</i><k>b</k><d><k>_isArr</k><t/><k>k_0</k><s>x</s><k>k_1</k><t/></d></d>"
            .to_vec(),
        ser.into_inner()
    );
}

#[test]
fn composite_round_trips() {
    let original = Value::Dict(vec![
        (b"name".to_vec(), Value::Str(b"a & b".to_vec())),
        (b"count".to_vec(), Value::Int(-5)),
        (
            b"items".to_vec(),
            Value::Arr(vec![
                Value::Int(1),
                Value::Dict(vec![(b"inner".to_vec(), Value::Real(b"2.5".to_vec()))]),
            ]),
        ),
    ]);
    let mut ser = Serializer::new();
    ser.serialize_value(&original).unwrap();
    let mut xml = Vec::new();
    xml.extend_from_slice(br#"<?xml version="1.0"?><plist version="1.0" gjver="2.0">"#);
    xml.extend_from_slice(&ser.into_inner());
    xml.extend_from_slice(b"</plist>");
    let decoded = from_bytes::<Value>(&transform_encode(&xml).unwrap()).unwrap();
    assert_eq!(original, decoded.t);
}
