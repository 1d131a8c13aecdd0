//! Document-level decoding: header extraction, the array convention, the
//! two empty-dictionary forms, metadata and trailing-data failures, the
//! schema types, and one input for each reachable error kind.

use gdsave::de::from_bytes;
use gdsave::de::DataWithHeader;
use gdsave::error::DeError;
use gdsave::local_levels::LocalLevelsDB;
use gdsave::transform::transform_encode;
use gdsave::value::Value;

/// Wrap a body in the standard document and run the transform pipeline.
fn doc(body: &str) -> Vec<u8> {
    let mut xml = Vec::new();
    xml.extend_from_slice(br#"<?xml version="1.0"?><plist version="1.0" gjver="2.0">"#);
    xml.extend_from_slice(body.as_bytes());
    xml.extend_from_slice(b"</plist>");
    transform_encode(&xml).unwrap()
}

fn decode_value(body: &str) -> Result<DataWithHeader<Value>, DeError> {
    from_bytes::<Value>(&doc(body))
}

#[test]
fn header_extracted() {
    let d = decode_value("<dict></dict>").unwrap();
    assert_eq!("1.0", d.header.xml_version);
    assert_eq!("1.0", d.header.plist_version);
    assert_eq!("2.0", d.header.gj_version);
}

#[test]
fn header_reproducible_across_sessions() {
    let bytes = doc("<dict></dict>");
    let first = from_bytes::<Value>(&bytes).unwrap();
    let second = from_bytes::<Value>(&bytes).unwrap();
    assert_eq!(first.header.xml_version, second.header.xml_version);
    assert_eq!(first.header.plist_version, second.header.plist_version);
    assert_eq!(first.header.gj_version, second.header.gj_version);
    assert_eq!(first.t, second.t);
}

#[test]
fn array_convention_decodes_sequence() {
    let d = decode_value("<d><k>_isArr</k><t/><k>k_0</k><s>a</s><k>k_1</k><s>b</s></d>").unwrap();
    assert_eq!(
        Value::Arr(vec![Value::Str(b"a".to_vec()), Value::Str(b"b".to_vec())]),
        d.t
    );
}

#[test]
fn array_index_gap_fails() {
    let r = decode_value("<d><k>_isArr</k><t/><k>k_0</k><s>a</s><k>k_2</k><s>b</s></d>");
    assert!(matches!(r, Err(DeError::Deserialization)));
}

#[test]
fn empty_dictionary_forms() {
    let paired = decode_value("<dict></dict>").unwrap();
    assert_eq!(Value::Dict(vec![]), paired.t);
    let self_closing = decode_value("<dict/>").unwrap();
    assert_eq!(Value::Dict(vec![]), self_closing.t);
    let self_closing_spaced = decode_value("<dict />").unwrap();
    assert_eq!(Value::Dict(vec![]), self_closing_spaced.t);
}

#[test]
fn missing_version_attribute_fails() {
    let xml = br#"<?xml version="1.0"?><plist gjver="2.0"><dict></dict></plist>"#.to_vec();
    let r = from_bytes::<Value>(&transform_encode(&xml).unwrap());
    assert!(matches!(r, Err(DeError::ExpectedPlistVersion)));
}

#[test]
fn missing_declaration_fails() {
    let xml = br#"<plist version="1.0" gjver="2.0"><dict></dict></plist>"#.to_vec();
    let r = from_bytes::<Value>(&transform_encode(&xml).unwrap());
    assert!(matches!(r, Err(DeError::ExpectedXmlVersion)));
}

#[test]
fn trailing_data_fails() {
    let r = decode_value("<dict></dict><i>5</i>");
    assert!(matches!(r, Err(DeError::ExpectedEof)));
}

#[test]
fn dict_of_scalars() {
    let d = decode_value("<d><k>a</k><i>-7</i><k>b</k><t/><k>c</k><r>1.5</r></d>").unwrap();
    assert_eq!(
        Value::Dict(vec![
            (b"a".to_vec(), Value::Int(-7)),
            (b"b".to_vec(), Value::Bool(true)),
            (b"c".to_vec(), Value::Real(b"1.5".to_vec())),
        ]),
        d.t
    );
}

#[test]
fn nested_dictionaries() {
    let d = decode_value("<d><k>inner</k><d><k>x</k><i>1</i></d></d>").unwrap();
    assert_eq!(
        Value::Dict(vec![(
            b"inner".to_vec(),
            Value::Dict(vec![(b"x".to_vec(), Value::Int(1))])
        )]),
        d.t
    );
}

#[test]
fn integer_out_of_range_fails() {
    let r = decode_value("<d><k>a</k><i>99999999999</i></d>");
    assert!(matches!(r, Err(DeError::Deserialization)));
}

#[test]
fn local_levels_decodes() {
    let mut body = String::new();
    body.push_str("<dict><k>LLM_01</k><d><k>_isArr</k><t/>");
    body.push_str("<k>k_0</k><d><k>k2</k><s>My Level</s><k>k5</k><s>Someone</s><k>k1</k><i>42</i>");
    body.push_str("<k>k4</k><s>ignored</s></d>");
    body.push_str("<k>k_1</k><d><k>k2</k><s>Second</s><k>k5</k><s>Else</s></d>");
    body.push_str("</d><k>LLM_02</k><i>35</i></dict>");
    let d = from_bytes::<LocalLevelsDB>(&doc(&body)).unwrap();
    let db = d.t;
    assert_eq!(35, db.binary_version());
    let levels = db.local_levels();
    assert_eq!(2, levels.len());
    assert_eq!(Some(42), levels[0].id());
    assert_eq!("My Level", levels[0].name());
    assert_eq!("Someone", levels[0].creator());
    assert_eq!(None, levels[1].id());
    assert_eq!("Second", levels[1].name());
    assert_eq!("Else", levels[1].creator());
}

#[test]
fn local_levels_missing_name_fails() {
    let mut body = String::new();
    body.push_str("<dict><k>LLM_01</k><d><k>_isArr</k><t/>");
    body.push_str("<k>k_0</k><d><k>k5</k><s>Someone</s></d>");
    body.push_str("</d><k>LLM_02</k><i>35</i></dict>");
    let r = from_bytes::<LocalLevelsDB>(&doc(&body));
    assert!(matches!(r, Err(DeError::Deserialization)));
}

#[test]
fn unknown_tag_fails() {
    let r = decode_value("<z>x</z>");
    assert!(matches!(r, Err(DeError::UnknownXmlTag)));
}

#[test]
fn stray_text_fails() {
    let r = decode_value("hello");
    assert!(matches!(r, Err(DeError::UnexpectedXmlText)));
}

#[test]
fn unexpected_attribute_fails() {
    let xml =
        br#"<?xml version="1.0"?><plist version="1.0" gjver="2.0" extra="1"><dict/></plist>"#
            .to_vec();
    let r = from_bytes::<Value>(&transform_encode(&xml).unwrap());
    assert!(matches!(r, Err(DeError::UnexpectedXmlAttr)));
}

#[test]
fn malformed_attribute_fails() {
    let xml = br#"<?xml version="1.0"?><plist version gjver="2.0"><dict/></plist>"#.to_vec();
    let r = from_bytes::<Value>(&transform_encode(&xml).unwrap());
    assert!(matches!(r, Err(DeError::XmlAttrParse)));
}

#[test]
fn declaration_without_version_fails() {
    let xml = br#"<?xml standalone="yes"?><plist version="1.0" gjver="2.0"><dict/></plist>"#
        .to_vec();
    let r = from_bytes::<Value>(&transform_encode(&xml).unwrap());
    assert!(matches!(r, Err(DeError::NoXmlVersionInfo)));
}

#[test]
fn unterminated_tag_fails() {
    let xml = br#"<?xml version="1.0"?><plist version="1.0" gjver="2.0"><dict"#.to_vec();
    let r = from_bytes::<Value>(&transform_encode(&xml).unwrap());
    assert!(matches!(r, Err(DeError::XmlParse)));
}

#[test]
fn comment_fails() {
    let r = decode_value("<!-- note --><dict></dict>");
    assert!(matches!(r, Err(DeError::UnexpectedOtherXml)));
}

#[test]
fn bad_entity_fails() {
    let r = decode_value("<d><k>a</k><s>broken &entity; here</s></d>");
    assert!(matches!(r, Err(DeError::XmlParse)));
}

#[test]
fn entities_unescape() {
    let d = decode_value("<d><k>a</k><s>x &lt;&amp;&gt; &apos;&quot; y</s></d>").unwrap();
    assert_eq!(
        Value::Dict(vec![(b"a".to_vec(), Value::Str(b"x <&> '\" y".to_vec()))]),
        d.t
    );
}

#[test]
fn stray_dict_closer_fails() {
    let r = decode_value("</d>");
    assert!(matches!(r, Err(DeError::UnexpectedXmlNesting)));
}

#[test]
fn mismatched_dict_closer_fails() {
    let r = decode_value("<d><k>a</k><i>1</i></dict>");
    assert!(matches!(r, Err(DeError::UnexpectedXmlNesting)));
}

#[test]
fn stray_scalar_closer_fails() {
    let r = decode_value("</k><dict></dict>");
    assert!(matches!(r, Err(DeError::UnexpectedXmlNesting)));
}

#[test]
fn numeric_character_references_unescape() {
    let d = decode_value("<d><k>a</k><s>A&#65;B &#x41; &#233; &#x10348;</s></d>").unwrap();
    let mut expected = b"AAB A ".to_vec();
    expected.extend_from_slice("\u{e9}".as_bytes());
    expected.push(b' ');
    expected.extend_from_slice("\u{10348}".as_bytes());
    assert_eq!(
        Value::Dict(vec![(b"a".to_vec(), Value::Str(expected))]),
        d.t
    );
}

#[test]
fn invalid_character_references_fail() {
    for body in [
        "<d><k>a</k><s>&#;</s></d>",
        "<d><k>a</k><s>&#x;</s></d>",
        "<d><k>a</k><s>&#xG1;</s></d>",
        "<d><k>a</k><s>&#0;</s></d>",
        "<d><k>a</k><s>&#xD800;</s></d>",
        "<d><k>a</k><s>&#1114112;</s></d>",
        "<d><k>a</k><s>&#65</s></d>",
    ] {
        let r = decode_value(body);
        assert!(matches!(r, Err(DeError::XmlParse)), "accepted {body}");
    }
}

#[test]
fn whitespace_around_attribute_equals() {
    let xml = br#"<?xml version="1.0"?><plist version = "1.0" gjver ='2.0'><dict/></plist>"#
        .to_vec();
    let d = from_bytes::<Value>(&transform_encode(&xml).unwrap()).unwrap();
    assert_eq!("1.0", d.header.plist_version);
    assert_eq!("2.0", d.header.gj_version);
}
