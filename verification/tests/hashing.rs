//! Info-hash tests: the digest is taken over the literal `info` byte span,
//! never over a re-encoding of the decoded value.

use sha1::{Digest, Sha1};
use xtorrent::encoding::encode_bencode;
use xtorrent::hashing::{compute_info_hash, extract_from_raw, find_info_span, TorrentError};
use xtorrent::parsing::{BenError, BencodeParser};
use xtorrent::peers::{hex_string, Peers};
use xtorrent::torrent::{ExtractError, TorrentMeta};

fn sha1_of_bytes(bytes: &[u8]) -> [u8; 20] {
    let mut hasher = Sha1::new();
    hasher.update(bytes);
    hasher.finalize().into()
}

/// A metainfo document whose `info` dictionary is deliberately not in
/// canonical key order.
fn non_canonical_doc() -> (Vec<u8>, Vec<u8>) {
    let info = b"d6:pieces20:cccccccccccccccccccc12:piece lengthi64e6:lengthi5e4:name1:fe".to_vec();
    let mut doc = b"d8:announce9:localhost4:info".to_vec();
    doc.extend_from_slice(&info);
    doc.push(b'e');
    (doc, info)
}

#[test]
fn info_hash_is_digest_of_literal_span_not_reencoding() {
    let (doc, info) = non_canonical_doc();
    let hash = compute_info_hash(&doc).unwrap();
    assert_eq!(hash, sha1_of_bytes(&info));

    let mut p = BencodeParser::new_w_bytes(info.clone());
    let decoded_info = p.decode_bencode().unwrap();
    let re_encoded = encode_bencode(&decoded_info);
    assert_ne!(re_encoded, info, "the sample must not be canonical");
    assert_ne!(hash, sha1_of_bytes(&re_encoded));
}

#[test]
fn info_span_points_at_the_info_value() {
    let (doc, info) = non_canonical_doc();
    let (a, b) = find_info_span(&doc).unwrap();
    assert_eq!(&doc[a..b], info.as_slice());
}

#[test]
fn info_span_absent_without_info_key() {
    let doc = b"d8:announce9:localhoste".to_vec();
    assert!(find_info_span(&doc).is_none());
    assert!(compute_info_hash(&doc).is_none());
    let doc2 = b"i5e".to_vec();
    assert!(compute_info_hash(&doc2).is_none());
}

#[test]
fn extract_from_raw_fills_the_hash() {
    let (doc, info) = non_canonical_doc();
    let meta = extract_from_raw(&doc).unwrap();
    assert_eq!(meta.announce, "localhost".to_string());
    assert_eq!(meta.info.piece_length, 64);
    assert_eq!(meta.info_hash, Some(sha1_of_bytes(&info)));
}

#[test]
fn extract_from_raw_reports_decode_and_extract_errors() {
    assert_eq!(
        extract_from_raw(&b"i12".to_vec()).unwrap_err(),
        TorrentError::Decode {
            err: BenError::MalformedInteger { offset: 0 }
        }
    );
    assert_eq!(
        extract_from_raw(&b"i12e".to_vec()).unwrap_err(),
        TorrentError::Extract {
            err: ExtractError::NotADictionary
        }
    );
}

#[test]
fn hex_rendering_of_the_info_hash() {
    assert_eq!(hex_string(&[0xab, 0x00, 0x1f]), "ab001f".to_string());
    let (doc, info) = non_canonical_doc();
    let meta = extract_from_raw(&doc).unwrap();
    let params = Peers::generate_params_for_peers(&meta);
    assert_eq!(params.len(), 7);
    assert_eq!(params[0].0, "info_hash".to_string());
    assert_eq!(params[0].1, hex_string(&sha1_of_bytes(&info)));
    assert_eq!(params[1], ("peer_id".to_string(), String::new()));
    assert_eq!(params[6], ("event".to_string(), String::new()));
}

#[test]
fn whitespace_before_info_value_is_outside_the_span() {
    let info = b"d6:lengthi1e12:piece lengthi2e6:pieces0:e".to_vec();
    let mut doc = b"d4:info\n".to_vec();
    doc.extend_from_slice(&info);
    doc.push(b'e');
    let (a, b) = find_info_span(&doc).unwrap();
    assert_eq!(&doc[a..b], info.as_slice());
    assert_eq!(compute_info_hash(&doc).unwrap(), sha1_of_bytes(&info));
}

#[test]
fn single_file_pipeline_with_canonical_info() {
    let pieces = "d".repeat(20);
    let doc = format!(
        "d8:announce3:url4:infod6:lengthi3e4:name1:x12:piece lengthi2e6:pieces20:{}ee",
        pieces
    )
    .into_bytes();
    let meta = extract_from_raw(&doc).unwrap();
    let meta2 = TorrentMeta::extract_from_bcode({
        let mut p = BencodeParser::new_w_bytes(doc.clone());
        p.decode_bencode().unwrap()
    })
    .unwrap();
    assert_eq!(meta.announce, meta2.announce);
    assert!(meta.info_hash.is_some());
    assert!(meta2.info_hash.is_none());
}

#[test]
fn duplicate_info_keys_hash_the_last_span() {
    let first = b"d6:lengthi1e12:piece lengthi2e6:pieces0:e".to_vec();
    let second = b"d6:lengthi9e12:piece lengthi4e6:pieces0:e".to_vec();
    let mut doc = b"d4:info".to_vec();
    doc.extend_from_slice(&first);
    doc.extend_from_slice(b"4:info");
    doc.extend_from_slice(&second);
    doc.push(b'e');
    let (a, b) = find_info_span(&doc).unwrap();
    assert_eq!(&doc[a..b], second.as_slice());
    assert_eq!(compute_info_hash(&doc).unwrap(), sha1_of_bytes(&second));
}
