//! The transform pipeline against fixed samples: decoding known save-file
//! bytes yields the exact markup text, encoding inverts decoding, and
//! malformed payloads are reported as transform errors.

use gdsave::error::DeError;
use gdsave::transform::transform_decode;
use gdsave::transform::transform_encode;

struct TestSample {
    encoded: Vec<u8>,
    decoded: Vec<u8>,
}

fn test_data() -> Vec<TestSample> {
    vec![
        TestSample {
            encoded: b"C?xBJB<ZGfZJJ:SE^Z=HFIJN;@x;[ZH]N}:jcl\x7f?HjFE\\\\`G9j8L?:}@M8&<i>BQfe?{ff3Z>_\\[\x7f~3~olA\x7f`i\\h:hq}&dT\\:s};?fhIGQO|bDZ\\`@O}TNIDo~]hLa@~myc]>]9:HDn>IRy<@bNQ8}X_rHeBCR9~GnF[f@J<[{RJJJJ6".to_vec(),
            decoded: br#"<?xml version="1.0"?><plist version="1.0" gjver="2.0"><dict><k>real</k><r>1.23</r><k>int</k><i>52363</i><k>string</k><s>Lorem ipsum</s></dict></plist>"#.to_vec(),
        },
        TestSample {
            encoded: b"C?xBJIxrF\\ZJJ9\\EX|zJFJsNy:ArljOyF]>H8Bx\\boR[ERaC:<QGE3[|CxDlmiilic3}[mjL&gBzjl]e;F\x7f&zbR8Gs2xr[re^>Il;\x7fNNz;ZTI[JzbEG>sr{|_Mc8r:Zqo_]RI]sLeCT`I\\D:c\x7fzAJJJJ".to_vec(),
            decoded: br#"<?xml version="Version1"?><plist version="Version2" gjver="test test"><dict><k>real</k><r>Text1</r><k>int</k><i>Text 2</i></dict></plist>"#.to_vec(),
        },
        TestSample {
            encoded: b"C?xBJL[ZGfZJJ;9@XZyJBIJN}rGqlLr8|LY3_IGHIOo^sDn<?FM_os\\MFfxg;~xO\\8[I}f|lHQ8bNLo<l[a&r~9mZ[a|CZeSF_9eJzOALAQGJJJJ".to_vec(),
            decoded: br#"<?xml version="1.0"?><plist version="1.2" gjver="1.9"><dict></dict></plist>"#.to_vec(),
        },
        TestSample {
            encoded: b"C?xBJNSZGfZJJ;\\@\\|zJBIJJy<GxJoZ&c\\;2_N]x\\Bf@nC|m[T<EOND~}c<@MQ[38?>L\\SYF|^}@z9<@BEs[23N\\f^?>Fflf[^2~OIb|_NRJJJJ6".to_vec(),
            decoded: br#"<?xml version="0.9"?><plist version="1.0" gjver="1.9"><dict /></plist>"#.to_vec(),
        },
        TestSample {
            encoded: b"C?xBJL=xD9ZJJ:\\F\\|zJBIYN\x7frB~dA\x7f&S3n22HIFr;bAg{3gmmlsFCFRO\x7f\x7f<H&@jq&_biz_znfeIY8J{\x7f:Zxj2gL=\x7fGI`sxq9LDBFXlfO3=HmzJyJEDinz][bZn&89Qji|JJJJ66".to_vec(),
            decoded: br#"<?xml version="1.0"?><plist version="1.0" gjver="2.0"><dict><k>bool1</k><t /><k>bool2</k><t></t></dict></plist>"#.to_vec(),
        },
        TestSample {
            encoded: b"C?xBJJ;E[LZJJs8@X|dJBJlJ;j~NI&b8]f3_R^YMY~o[9x8J|2]Ma<\x7fgz3sI`C|N]>x2ZiQfOMT|J?@A\x7fy3{JJJJ".to_vec(),
            decoded: br#"<plist version="1.0" gjver="2.0"></plist>"#.to_vec(),
        },
    ]
}

#[test]
fn decodes_correctly() {
    for sample in test_data() {
        let decoded_by_func = transform_decode(&sample.encoded).unwrap();
        assert_eq!(sample.decoded, decoded_by_func);
    }
}

#[test]
fn transform_round_trips() {
    for sample in test_data() {
        let encoded = transform_encode(&sample.decoded).unwrap();
        let back = transform_decode(&encoded).unwrap();
        assert_eq!(sample.decoded, back);
    }
}

#[test]
fn transform_rejects_garbage() {
    let garbage = b"not a save file at all".to_vec();
    match transform_decode(&garbage) {
        Err(DeError::Transform) => {}
        other => panic!("expected a transform error, got {:?}", other),
    }
}

#[test]
fn transform_rejects_truncation() {
    let sample = &test_data()[0];
    let truncated = sample.encoded[..sample.encoded.len() / 2].to_vec();
    assert!(transform_decode(&truncated).is_err());
}
