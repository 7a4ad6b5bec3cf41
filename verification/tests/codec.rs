//! Encoder and round-trip tests: canonical re-serialization, key
//! reordering on non-canonical input, and the value accessors.

use xtorrent::encoding::encode_bencode;
use xtorrent::parsing::BencodeParser;
use xtorrent::value::{ben_eq, BenStruct, GetData};

fn decode_str(doc: &str) -> BenStruct {
    let mut p = BencodeParser::new_w_string(doc.to_string());
    p.decode_bencode().unwrap()
}

#[test]
fn integer_round_trip() {
    for n in [0isize, 7, -7, 34, -34, isize::MAX, isize::MIN] {
        let v = BenStruct::Int { data: n };
        let bytes = encode_bencode(&v);
        assert_eq!(bytes, format!("i{}e", n).into_bytes());
        let mut p = BencodeParser::new_w_bytes(bytes);
        assert_eq!(p.decode_bencode().unwrap(), v);
    }
}

#[test]
fn byte_string_round_trip() {
    let content: Vec<u8> = vec![0, 255, b'e', b':', b'\n', 1, 2, 3];
    let v = BenStruct::Byte {
        length: content.len() as u128,
        data: content.clone(),
    };
    let bytes = encode_bencode(&v);
    let mut expected = b"8:".to_vec();
    expected.extend_from_slice(&content);
    assert_eq!(bytes, expected);
    let mut p = BencodeParser::new_w_bytes(bytes);
    assert_eq!(p.decode_bencode().unwrap(), v);
}

#[test]
fn canonical_tree_round_trips_to_identical_bytes() {
    let doc = b"d3:abcli1ei-2e3:xyze4:spamd1:a0:1:bi5eee".to_vec();
    let decoded = decode_str(std::str::from_utf8(&doc).unwrap());
    let re_encoded = encode_bencode(&decoded);
    assert_eq!(re_encoded, doc);
    let mut p = BencodeParser::new_w_bytes(re_encoded);
    assert_eq!(p.decode_bencode().unwrap(), decoded);
}

#[test]
fn non_canonical_dict_decodes_and_reorders() {
    let decoded = decode_str("d3:foo3:bar3:bazi1ee");
    let expected = BenStruct::Dict {
        data: vec![
            ("baz".to_string(), BenStruct::Int { data: 1 }),
            (
                "foo".to_string(),
                BenStruct::Byte {
                    length: 3,
                    data: b"bar".to_vec(),
                },
            ),
        ],
    };
    assert_eq!(decoded, expected);
    assert_eq!(encode_bencode(&decoded), b"d3:bazi1e3:foo3:bare".to_vec());
}

#[test]
fn empty_list_and_dict_round_trip() {
    let l = decode_str("le");
    let d = decode_str("de");
    assert_eq!(encode_bencode(&l), b"le".to_vec());
    assert_eq!(encode_bencode(&d), b"de".to_vec());
    assert_eq!(l, BenStruct::List { data: vec![] });
    assert_eq!(d, BenStruct::Dict { data: vec![] });
}

#[test]
fn parse_input_strips_newlines_and_tabs() {
    let out = BencodeParser::parse_input(b"a\nb\tc\n".to_vec());
    assert_eq!(out, b"abc".to_vec());
}

#[test]
fn equality_ignores_declared_length_mismatch_direction() {
    let a = BenStruct::Byte {
        length: 4,
        data: b"spam".to_vec(),
    };
    let b = BenStruct::Byte {
        length: 4,
        data: b"spam".to_vec(),
    };
    assert!(ben_eq(&a, &b));
    let c = BenStruct::Byte {
        length: 4,
        data: b"eggs".to_vec(),
    };
    assert!(!ben_eq(&a, &c));
    assert_ne!(
        BenStruct::List { data: vec![a] },
        BenStruct::List { data: vec![c] }
    );
}

#[test]
fn asymmetric_prefix_lists_are_not_equal() {
    let shorter = BenStruct::List {
        data: vec![BenStruct::Int { data: 1 }],
    };
    let longer = BenStruct::List {
        data: vec![BenStruct::Int { data: 1 }, BenStruct::Int { data: 2 }],
    };
    assert_ne!(shorter, longer);
    assert_ne!(longer, shorter);
}

#[test]
fn get_data_accessors() {
    let i = BenStruct::Int { data: -19 };
    assert_eq!(i.get_isize(), -19);
    let s = BenStruct::Byte {
        length: 5,
        data: b"hello".to_vec(),
    };
    assert_eq!(s.get_string(), "hello".to_string());
}

#[test]
fn duplicate_preserves_the_value() {
    let v = decode_str("d1:ali1e2:bbe1:zi-3ee");
    let copy = v.duplicate();
    assert_eq!(copy, v);
}

#[test]
fn decoded_value_is_remembered() {
    let mut p = BencodeParser::new_w_string("i42e".to_string());
    let v = p.decode_bencode().unwrap();
    assert_eq!(p.decoded_bc, v);
}

#[test]
fn leading_zero_and_negative_zero_integers_parse_numerically() {
    assert_eq!(decode_str("i007e"), BenStruct::Int { data: 7 });
    assert_eq!(decode_str("i-0e"), BenStruct::Int { data: 0 });
}
