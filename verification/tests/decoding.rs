//! Decoder tests: the grammar on well-formed documents, whitespace
//! handling, and one input for every decode error.

use std::str;

use xtorrent::parsing::{BenError, BencodeParser, MAX_DEPTH};
use xtorrent::value::BenStruct;

#[test]
fn should_parse_positive_int() {
    let mut bc_parser = BencodeParser::new_w_string(String::from("i34e"));
    let result = bc_parser.decode_bencode().unwrap();
    println!("{:#?}", result);
    if let BenStruct::Int { data } = result {
        assert_eq!(data, 34);
    } else {
        panic!("Invalid data type decoded!")
    }
}

#[test]
fn should_parse_negative_int() {
    let mut bc_parser = BencodeParser::new_w_string(String::from("i-34e"));
    let result = bc_parser.decode_bencode().unwrap();
    if let BenStruct::Int { data } = result {
        assert_eq!(data, -34);
    } else {
        panic!("Invalid data type decoded!")
    }
}

#[test]
fn should_parse_byte() {
    let raw_bytes = "4:spam";
    let expected_bytes = raw_bytes.split_once(':').unwrap().1;
    let mut bc_parser = BencodeParser::new_w_string(String::from(raw_bytes));
    let result = bc_parser.decode_bencode().unwrap();
    if let BenStruct::Byte { length, data } = result {
        assert_eq!(
            length as usize,
            data.clone().len(),
            "Length of chars not same as passed len"
        );
        assert_eq!(
            str::from_utf8(&data).unwrap(),
            expected_bytes,
            "Wrong chars decoded"
        )
    } else {
        panic!("Invalid data type decoded!")
    }
}

#[test]
fn should_parse_lists() {
    let mut bc_parser = BencodeParser::new_w_string(String::from("li42e4:spami-32ee"));
    let result = bc_parser.decode_bencode().unwrap();
    let expected_result = vec![
        BenStruct::Int { data: 42 },
        BenStruct::Byte {
            length: 4,
            data: "spam".as_bytes().to_vec(),
        },
        BenStruct::Int { data: -32 },
    ];
    if let BenStruct::List { data } = result {
        println!("{:#?}", data);
        let match_count = data
            .clone()
            .iter()
            .zip(expected_result.iter())
            .filter(|&(r, e)| r == e)
            .count();
        assert_eq!(match_count, data.len())
    } else {
        panic!("Invalid data type decoded!")
    }
}

#[test]
fn should_parse_nested_lists() {
    let mut bc_parser = BencodeParser::new_w_string(String::from("li39eli29ee4:spami-32ee"));
    let result = bc_parser.decode_bencode().unwrap();
    let expected_result = vec![
        BenStruct::Int { data: 39 },
        BenStruct::List {
            data: vec![BenStruct::Int { data: 29 }],
        },
        BenStruct::Byte {
            length: 4,
            data: "spam".as_bytes().to_vec(),
        },
        BenStruct::Int { data: -32 },
    ];
    assert_eq!(
        result,
        BenStruct::List {
            data: expected_result
        }
    )
}

#[test]
fn should_parse_dicts() {
    let mut bc_parser = BencodeParser::new_w_string(String::from("d3:bar4:spam3:fooi45ee "));
    let result = bc_parser.decode_bencode().unwrap();
    let expected_result = vec![
        (
            "bar".to_string(),
            BenStruct::Byte {
                length: 4,
                data: "spam".as_bytes().to_vec(),
            },
        ),
        ("foo".to_string(), BenStruct::Int { data: 45 }),
    ];

    assert_eq!(
        result,
        BenStruct::Dict {
            data: expected_result
        }
    )
}

#[test]
fn should_support_new_lines() {
    let mut bc_parser = BencodeParser::new_w_string(String::from("d\n3:foo\n3:bar\ne"));
    let result = bc_parser.decode_bencode().unwrap();
    let expected_map = vec![(
        "foo".to_string(),
        BenStruct::Byte {
            length: 3,
            data: "bar".as_bytes().to_vec(),
        },
    )];
    println!("{:#?}", result);
    assert_eq!(result, BenStruct::Dict { data: expected_map });
}

#[test]
fn whitespace_stays_inside_byte_string_content() {
    let mut p = BencodeParser::new_w_string(String::from("3:a\nb"));
    let result = p.decode_bencode().unwrap();
    assert_eq!(
        result,
        BenStruct::Byte {
            length: 3,
            data: b"a\nb".to_vec()
        }
    );
}

#[test]
fn trailing_bytes_are_ignored() {
    let mut p = BencodeParser::new_w_string(String::from("i7egarbage"));
    assert_eq!(p.decode_bencode().unwrap(), BenStruct::Int { data: 7 });
}

#[test]
fn duplicate_keys_last_wins() {
    let mut p = BencodeParser::new_w_string(String::from("d3:keyi1e3:keyi2ee"));
    let result = p.decode_bencode().unwrap();
    assert_eq!(
        result,
        BenStruct::Dict {
            data: vec![("key".to_string(), BenStruct::Int { data: 2 })]
        }
    );
}

#[test]
fn truncated_byte_string_fails() {
    let mut p = BencodeParser::new_w_string(String::from("5:ab"));
    let err = p.decode_bencode().unwrap_err();
    assert_eq!(err, BenError::TruncatedByteString { offset: 0 });
}

#[test]
fn integer_without_digits_fails() {
    let mut p = BencodeParser::new_w_string(String::from("ie"));
    assert_eq!(
        p.decode_bencode().unwrap_err(),
        BenError::MalformedInteger { offset: 0 }
    );
}

#[test]
fn integer_without_terminator_fails() {
    let mut p = BencodeParser::new_w_string(String::from("i12"));
    assert_eq!(
        p.decode_bencode().unwrap_err(),
        BenError::MalformedInteger { offset: 0 }
    );
}

#[test]
fn integer_out_of_machine_range_fails() {
    let mut p = BencodeParser::new_w_string(String::from("i99999999999999999999999999e"));
    assert_eq!(
        p.decode_bencode().unwrap_err(),
        BenError::MalformedInteger { offset: 0 }
    );
}

#[test]
fn unterminated_list_fails() {
    let mut p = BencodeParser::new_w_string(String::from("li1e"));
    assert_eq!(
        p.decode_bencode().unwrap_err(),
        BenError::UnterminatedList { offset: 0 }
    );
}

#[test]
fn unterminated_dict_fails() {
    let mut p = BencodeParser::new_w_string(String::from("d3:fooi1e"));
    assert_eq!(
        p.decode_bencode().unwrap_err(),
        BenError::UnterminatedDictionary { offset: 0 }
    );
}

#[test]
fn non_string_dict_key_fails() {
    let mut p = BencodeParser::new_w_string(String::from("di1ei2ee"));
    assert_eq!(
        p.decode_bencode().unwrap_err(),
        BenError::NonStringDictionaryKey { offset: 1 }
    );
}

#[test]
fn invalid_utf8_dict_key_fails() {
    let mut p = BencodeParser::new_w_bytes(vec![b'd', b'1', b':', 0xff, b'i', b'1', b'e', b'e']);
    assert_eq!(
        p.decode_bencode().unwrap_err(),
        BenError::NonStringDictionaryKey { offset: 1 }
    );
}

#[test]
fn nesting_at_the_cap_succeeds() {
    let doc = "l".repeat(MAX_DEPTH).to_string() + &"e".repeat(MAX_DEPTH);
    let mut p = BencodeParser::new_w_string(doc);
    assert!(p.decode_bencode().is_ok());
}

#[test]
fn nesting_past_the_cap_fails() {
    let doc = "l".repeat(MAX_DEPTH + 1).to_string() + &"e".repeat(MAX_DEPTH + 1);
    let mut p = BencodeParser::new_w_string(doc);
    assert_eq!(
        p.decode_bencode().unwrap_err(),
        BenError::NestingTooDeep { offset: MAX_DEPTH }
    );
}

#[test]
fn unexpected_byte_fails() {
    let mut p = BencodeParser::new_w_string(String::from("x"));
    assert_eq!(
        p.decode_bencode().unwrap_err(),
        BenError::UnexpectedByte { offset: 0 }
    );
}

#[test]
fn empty_input_fails() {
    let mut p = BencodeParser::new_w_string(String::new());
    assert_eq!(
        p.decode_bencode().unwrap_err(),
        BenError::UnexpectedEnd { offset: 0 }
    );
}

#[test]
fn byte_string_without_colon_fails() {
    let mut p = BencodeParser::new_w_string(String::from("3abc"));
    assert_eq!(
        p.decode_bencode().unwrap_err(),
        BenError::UnexpectedByte { offset: 1 }
    );
}

#[test]
fn strict_decode_rejects_trailing_bytes() {
    let mut p = BencodeParser::new_w_string(String::from("i7egarbage"));
    assert_eq!(
        p.decode_bencode_strict().unwrap_err(),
        BenError::UnexpectedByte { offset: 3 }
    );
    let mut q = BencodeParser::new_w_string(String::from("i7e"));
    assert_eq!(
        q.decode_bencode_strict().unwrap(),
        BenStruct::Int { data: 7 }
    );
}
