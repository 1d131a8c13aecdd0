//! The token source against fixed samples: each document tokenizes to a
//! fixed, literal, ordered sequence of tokens ending in the end-of-input
//! token.

use gdsave::de::Deserializer;
use gdsave::token::DeEvent;

struct TestSample {
    encoded: Vec<u8>,
    valid_events: Vec<DeEvent>,
}

fn key(s: &[u8]) -> DeEvent {
    DeEvent::Key(s.to_vec())
}

fn test_data() -> Vec<TestSample> {
    vec![
        TestSample {
            encoded: b"C?xBJB<ZGfZJJ:SE^Z=HFIJN;@x;[ZH]N}:jcl\x7f?HjFE\\\\`G9j8L?:}@M8&<i>BQfe?{ff3Z>_\\[\x7f~3~olA\x7f`i\\h:hq}&dT\\:s};?fhIGQO|bDZ\\`@O}TNIDo~]hLa@~myc]>]9:HDn>IRy<@bNQ8}X_rHeBCR9~GnF[f@J<[{RJJJJ6".to_vec(),
            valid_events: vec![
                DeEvent::XmlVersion(b"1.0".to_vec()),
                DeEvent::PlistStart {
                    plist_version: b"1.0".to_vec(),
                    gj_version: b"2.0".to_vec(),
                },
                DeEvent::DictStart,
                key(b"real"),
                DeEvent::Real(b"1.23".to_vec()),
                key(b"int"),
                DeEvent::Integer(b"52363".to_vec()),
                key(b"string"),
                DeEvent::Str(b"Lorem ipsum".to_vec()),
                DeEvent::DictEnd,
            ],
        },
        TestSample {
            encoded: b"C?xBJIxrF\\ZJJ9\\EX|zJFJsNy:ArljOyF]>H8Bx\\boR[ERaC:<QGE3[|CxDlmiilic3}[mjL&gBzjl]e;F\x7f&zbR8Gs2xr[re^>Il;\x7fNNz;ZTI[JzbEG>sr{|_Mc8r:Zqo_]RI]sLeCT`I\\D:c\x7fzAJJJJ".to_vec(),
            valid_events: vec![
                DeEvent::XmlVersion(b"Version1".to_vec()),
                DeEvent::PlistStart {
                    plist_version: b"Version2".to_vec(),
                    gj_version: b"test test".to_vec(),
                },
                DeEvent::DictStart,
                key(b"real"),
                DeEvent::Real(b"Text1".to_vec()),
                key(b"int"),
                DeEvent::Integer(b"Text 2".to_vec()),
                DeEvent::DictEnd,
            ],
        },
        TestSample {
            encoded: b"C?xBJL[ZGfZJJ;9@XZyJBIJN}rGqlLr8|LY3_IGHIOo^sDn<?FM_os\\MFfxg;~xO\\8[I}f|lHQ8bNLo<l[a&r~9mZ[a|CZeSF_9eJzOALAQGJJJJ".to_vec(),
            valid_events: vec![
                DeEvent::XmlVersion(b"1.0".to_vec()),
                DeEvent::PlistStart {
                    plist_version: b"1.2".to_vec(),
                    gj_version: b"1.9".to_vec(),
                },
                DeEvent::DictStart,
                DeEvent::DictEnd,
            ],
        },
        TestSample {
            encoded: b"C?xBJNSZGfZJJ;\\@\\|zJBIJJy<GxJoZ&c\\;2_N]x\\Bf@nC|m[T<EOND~}c<@MQ[38?>L\\SYF|^}@z9<@BEs[23N\\f^?>Fflf[^2~OIb|_NRJJJJ6".to_vec(),
            valid_events: vec![
                DeEvent::XmlVersion(b"0.9".to_vec()),
                DeEvent::PlistStart {
                    plist_version: b"1.0".to_vec(),
                    gj_version: b"1.9".to_vec(),
                },
                DeEvent::DictStart,
                DeEvent::DictEnd,
            ],
        },
        TestSample {
            encoded: b"C?xBJL=xD9ZJJ:\\F\\|zJBIYN\x7frB~dA\x7f&S3n22HIFr;bAg{3gmmlsFCFRO\x7f\x7f<H&@jq&_biz_znfeIY8J{\x7f:Zxj2gL=\x7fGI`sxq9LDBFXlfO3=HmzJyJEDinz][bZn&89Qji|JJJJ66".to_vec(),
            valid_events: vec![
                DeEvent::XmlVersion(b"1.0".to_vec()),
                DeEvent::PlistStart {
                    plist_version: b"1.0".to_vec(),
                    gj_version: b"2.0".to_vec(),
                },
                DeEvent::DictStart,
                key(b"bool1"),
                DeEvent::True,
                key(b"bool2"),
                DeEvent::True,
                DeEvent::DictEnd,
            ],
        },
        // A document without the version declaration still tokenizes (the
        // document tag itself is well-formed); the missing declaration is
        // caught by the header extractor, not by the token source.
        TestSample {
            encoded: b"C?xBJJ;E[LZJJs8@X|dJBJlJ;j~NI&b8]f3_R^YMY~o[9x8J|2]Ma<\x7fgz3sI`C|N]>x2ZiQfOMT|J?@A\x7fy3{JJJJ".to_vec(),
            valid_events: vec![DeEvent::PlistStart {
                plist_version: b"1.0".to_vec(),
                gj_version: b"2.0".to_vec(),
            }],
        },
    ]
}

#[test]
fn emits_events_correctly() {
    for sample in test_data() {
        let mut deserializer = Deserializer::from_bytes(&sample.encoded).unwrap();
        for event in sample.valid_events {
            assert_eq!(event, deserializer.next().unwrap());
        }
        assert_eq!(DeEvent::Eof, deserializer.next().unwrap());
    }
}

#[test]
fn peek_does_not_consume() {
    let sample = &test_data()[0].encoded;
    let mut de = Deserializer::from_bytes(sample).unwrap();
    let peeked = de.peek().unwrap();
    let popped = de.next().unwrap();
    assert_eq!(peeked, popped);
    assert_eq!(DeEvent::XmlVersion(b"1.0".to_vec()), popped);
}
