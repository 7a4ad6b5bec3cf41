//! Extractor tests: the typed view of a metainfo dictionary and one input
//! for every extraction error.

use xtorrent::parsing::BencodeParser;
use xtorrent::torrent::{ExtractError, FieldName, TorrentFileType, TorrentMeta};
use xtorrent::value::BenStruct;

fn bytes_value(content: &[u8]) -> BenStruct {
    BenStruct::Byte {
        length: content.len() as u128,
        data: content.to_vec(),
    }
}

fn decode_doc(doc: &str) -> BenStruct {
    let mut p = BencodeParser::new_w_string(doc.to_string());
    p.decode_bencode().unwrap()
}

fn single_file_doc() -> String {
    let pieces = "a".repeat(40);
    format!(
        "d8:announce18:http://tracker.tld4:infod6:lengthi1024e4:name8:file.txt12:piece lengthi512e6:pieces40:{}ee",
        pieces
    )
}

fn folder_doc() -> String {
    let pieces = "b".repeat(20);
    format!(
        "d8:announce18:http://tracker.tld4:infod5:filesld6:lengthi7e4:pathl3:dir5:a.txteed6:lengthi9e4:pathl5:b.txteee4:name3:top12:piece lengthi256e6:pieces20:{}ee",
        pieces
    )
}

#[test]
fn should_extract_meta_from_single_file_torrent() {
    let bcode = decode_doc(&single_file_doc());
    let meta = TorrentMeta::extract_from_bcode(bcode).unwrap();
    assert_eq!(meta.announce, "http://tracker.tld".to_string());
    assert_eq!(meta.info.piece_length, 512);
    assert_eq!(meta.info.name, Some("file.txt".to_string()));
    assert_eq!(meta.info.pieces.len(), 2);
    assert_eq!(meta.info.pieces[0], b"a".repeat(20));
    assert!(meta.info_hash.is_none());
    match meta.info.file_length {
        TorrentFileType::Length(n) => assert_eq!(n, 1024),
        TorrentFileType::Files(_) => panic!("expected a single-file layout"),
    }
}

#[test]
fn should_extract_meta_from_folder_torrent() {
    let bcode = decode_doc(&folder_doc());
    let meta = TorrentMeta::extract_from_bcode(bcode).unwrap();
    assert_eq!(meta.announce, "http://tracker.tld".to_string());
    assert_eq!(meta.info.name, Some("top".to_string()));
    match meta.info.file_length {
        TorrentFileType::Length(_) => panic!("expected a multi-file layout"),
        TorrentFileType::Files(files) => {
            assert_eq!(files.len(), 2);
            assert_eq!(files[0].length, 7);
            assert_eq!(files[0].path, vec!["dir".to_string(), "a.txt".to_string()]);
            assert_eq!(files[1].length, 9);
            assert_eq!(files[1].path, vec!["b.txt".to_string()]);
        }
    }
}

#[test]
fn name_is_optional() {
    let pieces = "c".repeat(20);
    let doc = format!(
        "d8:announce3:url4:infod6:lengthi1e12:piece lengthi16e6:pieces20:{}ee",
        pieces
    );
    let meta = TorrentMeta::extract_from_bcode(decode_doc(&doc)).unwrap();
    assert_eq!(meta.info.name, None);
}

#[test]
fn non_dictionary_fails() {
    let err = TorrentMeta::extract_from_bcode(BenStruct::Int { data: 3 }).unwrap_err();
    assert_eq!(err, ExtractError::NotADictionary);
}

#[test]
fn missing_announce_fails() {
    let err = TorrentMeta::extract_from_bcode(BenStruct::Dict { data: vec![] }).unwrap_err();
    assert_eq!(
        err,
        ExtractError::MissingField {
            field: FieldName::Announce
        }
    );
}

#[test]
fn non_text_announce_fails() {
    let v = BenStruct::Dict {
        data: vec![("announce".to_string(), bytes_value(&[0xff, 0xfe]))],
    };
    assert_eq!(
        TorrentMeta::extract_from_bcode(v).unwrap_err(),
        ExtractError::InvalidEncoding {
            field: FieldName::Announce
        }
    );
}

#[test]
fn wrong_announce_type_fails() {
    let v = BenStruct::Dict {
        data: vec![("announce".to_string(), BenStruct::Int { data: 1 })],
    };
    assert_eq!(
        TorrentMeta::extract_from_bcode(v).unwrap_err(),
        ExtractError::WrongFieldType {
            field: FieldName::Announce
        }
    );
}

#[test]
fn missing_info_fails() {
    let v = BenStruct::Dict {
        data: vec![("announce".to_string(), bytes_value(b"url"))],
    };
    assert_eq!(
        TorrentMeta::extract_from_bcode(v).unwrap_err(),
        ExtractError::MissingField {
            field: FieldName::Info
        }
    );
}

#[test]
fn wrong_info_type_fails() {
    let v = BenStruct::Dict {
        data: vec![
            ("announce".to_string(), bytes_value(b"url")),
            ("info".to_string(), BenStruct::Int { data: 2 }),
        ],
    };
    assert_eq!(
        TorrentMeta::extract_from_bcode(v).unwrap_err(),
        ExtractError::WrongFieldType {
            field: FieldName::Info
        }
    );
}

fn meta_with_info(info: Vec<(String, BenStruct)>) -> Result<TorrentMeta, ExtractError> {
    let v = BenStruct::Dict {
        data: vec![
            ("announce".to_string(), bytes_value(b"url")),
            ("info".to_string(), BenStruct::Dict { data: info }),
        ],
    };
    TorrentMeta::extract_from_bcode(v)
}

#[test]
fn missing_piece_length_fails() {
    assert_eq!(
        meta_with_info(vec![]).unwrap_err(),
        ExtractError::MissingField {
            field: FieldName::PieceLength
        }
    );
}

#[test]
fn non_positive_piece_length_fails() {
    let info = vec![("piece length".to_string(), BenStruct::Int { data: 0 })];
    assert_eq!(
        meta_with_info(info).unwrap_err(),
        ExtractError::WrongFieldType {
            field: FieldName::PieceLength
        }
    );
}

#[test]
fn pieces_not_multiple_of_twenty_fails() {
    let info = vec![
        ("piece length".to_string(), BenStruct::Int { data: 16 }),
        ("pieces".to_string(), bytes_value(b"abcde")),
    ];
    assert_eq!(
        meta_with_info(info).unwrap_err(),
        ExtractError::InvalidPieceHashLength
    );
}

#[test]
fn missing_pieces_fails() {
    let info = vec![("piece length".to_string(), BenStruct::Int { data: 16 })];
    assert_eq!(
        meta_with_info(info).unwrap_err(),
        ExtractError::MissingField {
            field: FieldName::Pieces
        }
    );
}

#[test]
fn wrong_name_type_fails() {
    let info = vec![
        ("name".to_string(), BenStruct::Int { data: 1 }),
        ("piece length".to_string(), BenStruct::Int { data: 16 }),
        ("pieces".to_string(), bytes_value(&[7u8; 20])),
    ];
    assert_eq!(
        meta_with_info(info).unwrap_err(),
        ExtractError::WrongFieldType {
            field: FieldName::Name
        }
    );
}

#[test]
fn missing_length_in_single_file_fails() {
    let info = vec![
        ("piece length".to_string(), BenStruct::Int { data: 16 }),
        ("pieces".to_string(), bytes_value(&[7u8; 20])),
    ];
    assert_eq!(
        meta_with_info(info).unwrap_err(),
        ExtractError::MissingField {
            field: FieldName::Length
        }
    );
}

#[test]
fn empty_file_path_fails() {
    let entry = BenStruct::Dict {
        data: vec![
            ("length".to_string(), BenStruct::Int { data: 3 }),
            ("path".to_string(), BenStruct::List { data: vec![] }),
        ],
    };
    let info = vec![
        ("files".to_string(), BenStruct::List { data: vec![entry] }),
        ("piece length".to_string(), BenStruct::Int { data: 16 }),
        ("pieces".to_string(), bytes_value(&[7u8; 20])),
    ];
    assert_eq!(meta_with_info(info).unwrap_err(), ExtractError::EmptyFilePath);
}

#[test]
fn non_dictionary_file_entry_fails() {
    let info = vec![
        (
            "files".to_string(),
            BenStruct::List {
                data: vec![BenStruct::Int { data: 1 }],
            },
        ),
        ("piece length".to_string(), BenStruct::Int { data: 16 }),
        ("pieces".to_string(), bytes_value(&[7u8; 20])),
    ];
    assert_eq!(
        meta_with_info(info).unwrap_err(),
        ExtractError::WrongFieldType {
            field: FieldName::Files
        }
    );
}

#[test]
fn non_text_path_segment_fails() {
    let entry = BenStruct::Dict {
        data: vec![
            ("length".to_string(), BenStruct::Int { data: 3 }),
            (
                "path".to_string(),
                BenStruct::List {
                    data: vec![bytes_value(&[0x80])],
                },
            ),
        ],
    };
    let info = vec![
        ("files".to_string(), BenStruct::List { data: vec![entry] }),
        ("piece length".to_string(), BenStruct::Int { data: 16 }),
        ("pieces".to_string(), bytes_value(&[7u8; 20])),
    ];
    assert_eq!(
        meta_with_info(info).unwrap_err(),
        ExtractError::InvalidEncoding {
            field: FieldName::Path
        }
    );
}
