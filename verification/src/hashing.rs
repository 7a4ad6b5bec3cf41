//! The info-hash computer.
//!
//! A torrent's identity hash is the SHA-1 digest of the exact byte span of
//! the `info` value as it stands in the source document — never of a
//! re-encoding of the decoded value.  If the source dictionary is not in
//! canonical key order, a decode/encode cycle would change the bytes and
//! the hash; slicing the original buffer cannot.  The decoder is an
//! index-based scan, so the span is found by re-walking the top-level
//! dictionary and recording the cursor around the value bound to `info`.

use vstd::prelude::*;
use crate::parsing::{
    is_digit, lemma_sp_skip, sp_bytes, sp_skip, sp_value, BencodeParser, BenError, Outcome,
    MAX_DEPTH,
};
use crate::torrent::{spec_extract, ExtractError, MetaView, TorrentMeta};
use crate::value::{copy_bytes, BenStruct, BenValue};

verus! {

/// The SHA-1 digest of a byte sequence, as the outside hash implementation
/// computes it: a function of the bytes alone.
pub uninterp spec fn sha1_of(bs: Seq<u8>) -> Seq<u8>;

/// Relies on the `sha1` crate's `Sha1` (through its `Digest` interface):
/// the returned 20-byte digest depends on the input bytes alone.
#[verifier::external_body]
fn sha1_digest(bytes: &[u8]) -> (r: [u8; 20])
    ensures
        r@ == sha1_of(bytes@),
{
    let mut hasher = <sha1::Sha1 as sha1::Digest>::new();
    sha1::Digest::update(&mut hasher, bytes);
    sha1::Digest::finalize(hasher).into()
}

/// Ghost scan of the remaining entries of the top-level dictionary: the
/// half-open byte span of the value bound to the key whose raw bytes are
/// `key`.  The whole dictionary must scan; where the key is bound more than
/// once, the last binding wins, matching the decoder's duplicate policy.
/// `found` carries the span seen so far.  A span starts at the value's
/// first token byte and ends right after the value.
pub open spec fn sp_span_scan(
    s: Seq<u8>,
    pos: int,
    key: Seq<u8>,
    depth: nat,
    found: Option<(int, int)>,
) -> Option<(int, int)>
    decreases s.len() - pos,
    via sp_span_scan_decreases
{
    let p = sp_skip(s, pos);
    if pos < 0 || p >= s.len() {
        Option::None
    } else if s[p] == 101 {
        found
    } else if !is_digit(s[p]) {
        Option::None
    } else {
        match sp_bytes(s, p) {
            Outcome::Fail { err } => Option::None,
            Outcome::Good { v: BenValue::Bytes { bs: kb }, next: nk } => {
                if !(p < nk <= s.len()) {
                    Option::None
                } else {
                    let vstart = sp_skip(s, nk);
                    match sp_value(s, nk, depth) {
                        Outcome::Fail { err } => Option::None,
                        Outcome::Good { v, next } => {
                            if !(nk < next <= s.len()) {
                                Option::None
                            } else {
                                sp_span_scan(
                                    s,
                                    next,
                                    key,
                                    depth,
                                    if kb == key {
                                        Option::Some((vstart, next))
                                    } else {
                                        found
                                    },
                                )
                            }
                        },
                    }
                }
            },
            Outcome::Good { v: _, next: _ } => Option::None,
        }
    }
}

#[via_fn]
proof fn sp_span_scan_decreases(
    s: Seq<u8>,
    pos: int,
    key: Seq<u8>,
    depth: nat,
    found: Option<(int, int)>,
) {
    if 0 <= pos && pos <= s.len() {
        lemma_sp_skip(s, pos);
    }
}

/// The spans of an executable scan state, as the ghost scan carries them.
pub open spec fn span_opt(o: Option<(usize, usize)>) -> Option<(int, int)> {
    match o {
        Option::Some(sp) => Option::Some((sp.0 as int, sp.1 as int)),
        Option::None => Option::None,
    }
}

/// The byte span of the `info` value of a metainfo document: the document
/// must open a top-level dictionary whose entries all scan, and the span is
/// that of the last entry bound to `info`.
pub open spec fn spec_info_span(s: Seq<u8>) -> Option<(int, int)> {
    let p = sp_skip(s, 0);
    if 0 <= p && p < s.len() && s[p] == 100 {
        sp_span_scan(
            s,
            p + 1,
            vstd::utf8::encode_utf8("info"@),
            (MAX_DEPTH - 1) as nat,
            Option::None,
        )
    } else {
        Option::None
    }
}

/// Copy the byte range `[from, to)` out of a buffer.
fn copy_range(v: &Vec<u8>, from: usize, to: usize) -> (r: Vec<u8>)
    requires
        from <= to <= v@.len(),
    ensures
        r@ == v@.subrange(from as int, to as int),
{
    let mut out: Vec<u8> = Vec::new();
    let mut i: usize = from;
    proof {
        assert(v@.subrange(from as int, from as int) =~= Seq::<u8>::empty());
    }
    while i < to
        invariant
            from <= i <= to <= v@.len(),
            out@ == v@.subrange(from as int, i as int),
        decreases to - i,
    {
        out.push(v[i]);
        proof {
            assert(v@.subrange(from as int, i as int + 1) =~= v@.subrange(
                from as int,
                i as int,
            ).push(v@[i as int]));
        }
        i += 1;
    }
    out
}

/// Find the byte span of the `info` value in a raw metainfo document.
pub fn find_info_span(raw: &Vec<u8>) -> (r: Option<(usize, usize)>)
    ensures
        r matches Some(sp) ==> spec_info_span(raw@) == Some((sp.0 as int, sp.1 as int))
            && sp.0 <= sp.1 <= raw@.len(),
        r is None ==> spec_info_span(raw@) is None,
{
    let ghost s = raw@;
    let ghost ik = vstd::utf8::encode_utf8("info"@);
    let ghost d1 = (MAX_DEPTH - 1) as nat;
    let mut parser = BencodeParser::new_w_bytes(copy_bytes(raw));
    parser.skip_ws();
    proof {
        lemma_sp_skip(s, 0);
    }
    let p = parser.cursor;
    if p >= parser.encoded_bc_source.len() {
        return None;
    }
    if parser.encoded_bc_source[p] != 100 {
        return None;
    }
    parser.cursor = p + 1;
    let mut found: Option<(usize, usize)> = None;
    loop
        invariant
            parser.inv(),
            s == raw@,
            parser.encoded_bc_source@ == s,
            ik == vstd::utf8::encode_utf8("info"@),
            d1 == (MAX_DEPTH - 1) as nat,
            spec_info_span(s) == sp_span_scan(s, parser.cursor as int, ik, d1, span_opt(found)),
            found matches Some(sp) ==> sp.0 <= sp.1 <= s.len(),
        decreases s.len() - parser.cursor,
    {
        let ghost cit = parser.cursor as int;
        let ghost f0 = span_opt(found);
        parser.skip_ws();
        proof {
            lemma_sp_skip(s, cit);
        }
        let q = parser.cursor;
        if q >= parser.encoded_bc_source.len() {
            proof {
                assert(sp_span_scan(s, cit, ik, d1, f0) is None);
            }
            return None;
        }
        let tag = parser.encoded_bc_source[q];
        if tag == 101 {
            proof {
                assert(sp_span_scan(s, cit, ik, d1, f0) == f0);
            }
            return found;
        }
        if tag < 48 || tag > 57 {
            return None;
        }
        let kres = parser.consume_bytes();
        let kstruct = match kres {
            Result::Err(e) => {
                return None;
            },
            Result::Ok(kv) => kv,
        };
        let kb = match kstruct {
            BenStruct::Byte { data, .. } => data,
            _ => unreached(),
        };
        let ghost nk = parser.cursor as int;
        parser.skip_ws();
        proof {
            lemma_sp_skip(s, nk);
        }
        let vstart = parser.cursor;
        proof {
            assert(sp_skip(s, vstart as int) == vstart as int);
            assert(sp_value(s, nk, d1) == sp_value(s, vstart as int, d1));
        }
        let vres = parser.process_bencode(MAX_DEPTH - 1);
        match vres {
            Result::Err(e) => {
                return None;
            },
            Result::Ok(_) => {},
        }
        let vend = parser.cursor;
        let matched = crate::value::bytes_eq(kb.as_slice(), "info".as_bytes());
        if matched {
            found = Some((vstart, vend));
        }
    }
}

/// A fault while turning raw metainfo bytes into typed metadata: either the
/// document did not decode, or the decoded dictionary did not extract.
#[derive(Debug, Clone, Copy, PartialEq, Eq, Structural)]
pub enum TorrentError {
    Decode { err: BenError },
    Extract { err: ExtractError },
}

/// Ghost composition of decoding and extraction on a raw document (the
/// info hash still absent).
pub open spec fn spec_torrent(s: Seq<u8>) -> Result<MetaView, TorrentError> {
    match crate::parsing::sp_parse(s) {
        Outcome::Fail { err } => Result::Err(TorrentError::Decode { err }),
        Outcome::Good { v, next } => match spec_extract(v) {
            Result::Err(e) => Result::Err(TorrentError::Extract { err: e }),
            Result::Ok(m) => Result::Ok(m),
        },
    }
}

/// Compute the torrent's identity hash from the raw document bytes: the
/// SHA-1 digest of the literal `info` byte span, found if and only if the
/// span scan finds the entry.
pub fn compute_info_hash(raw: &Vec<u8>) -> (r: Option<[u8; 20]>)
    ensures
        r is Some <==> spec_info_span(raw@) is Some,
        r matches Some(h) ==> spec_info_span(raw@) matches Some(sp) && h@ == sha1_of(
            raw@.subrange(sp.0, sp.1),
        ),
{
    match find_info_span(raw) {
        Option::None => None,
        Option::Some((a, b)) => {
            let span = copy_range(raw, a, b);
            Some(sha1_digest(span.as_slice()))
        },
    }
}

/// Decode a raw metainfo document, extract its typed metadata, and fill in
/// the info hash from the literal byte span of the `info` value.  Whenever
/// extraction succeeds the hash is present: a successfully extracted
/// dictionary binds `info`, so its span exists.
pub fn extract_from_raw(raw: &Vec<u8>) -> (r: Result<TorrentMeta, TorrentError>)
    ensures
        r matches Err(e) ==> spec_torrent(raw@) == Err::<MetaView, TorrentError>(e),
        r matches Ok(m) ==> {
            &&& spec_torrent(raw@) matches Ok(m0)
            &&& m@.announce == m0.announce
            &&& m@.info == m0.info
            &&& spec_info_span(raw@) matches Some(sp)
            &&& m@.info_hash == Some(sha1_of(raw@.subrange(sp.0, sp.1)))
        },
{
    let mut parser = BencodeParser::new_w_bytes(copy_bytes(raw));
    let decoded = match parser.decode_bencode() {
        Result::Ok(v) => v,
        Result::Err(e) => {
            return Err(TorrentError::Decode { err: e });
        },
    };
    let ghost dv = crate::value::view_of(decoded);
    let mut meta = match TorrentMeta::extract_from_bcode(decoded) {
        Result::Ok(m) => m,
        Result::Err(e) => {
            return Err(TorrentError::Extract { err: e });
        },
    };
    proof {
        match dv {
            BenValue::Dict { entries } => {
                match crate::value::dict_get(entries, "info"@) {
                    Option::Some(iv) => {
                        lemma_decode_gives_info_span(raw@);
                    },
                    Option::None => {
                        assert(false);
                    },
                }
            },
            _ => {
                assert(false);
            },
        }
    }
    meta.info_hash = compute_info_hash(raw);
    Ok(meta)
}

/// Along a successful dictionary parse, the span scan walks the same
/// entries and reaches the terminator; if the resulting dictionary binds
/// the scanned key, a span has been remembered.  `acc` and `found` are the
/// parser's and the scanner's states, linked by the hypothesis that any
/// binding already accumulated has its span already found.
proof fn lemma_entries_scan(
    s: Seq<u8>,
    pos: int,
    d: nat,
    acc: Seq<(Seq<char>, BenValue)>,
    start: int,
    f0: Option<(int, int)>,
)
    requires
        crate::parsing::sp_entries(s, pos, d, acc, start) matches Outcome::Good { v, next },
        crate::value::dict_get(acc, "info"@) is Some ==> f0 is Some,
    ensures
        crate::parsing::sp_entries(s, pos, d, acc, start) matches Outcome::Good {
            v: BenValue::Dict { entries },
            next,
        } ==> (crate::value::dict_get(entries, "info"@) is Some ==> sp_span_scan(
            s,
            pos,
            vstd::utf8::encode_utf8("info"@),
            d,
            f0,
        ) is Some),
    decreases s.len() - pos,
{
    let ik = vstd::utf8::encode_utf8("info"@);
    let p = sp_skip(s, pos);
    if 0 <= pos && pos <= s.len() {
        lemma_sp_skip(s, pos);
    }
    if pos < 0 || p >= s.len() {
    } else if s[p] == 101 {
    } else if !is_digit(s[p]) {
    } else {
        match sp_bytes(s, p) {
            Outcome::Fail { err } => {},
            Outcome::Good { v: BenValue::Bytes { bs: kb }, next: nk } => {
                if vstd::utf8::valid_utf8(kb) && p < nk <= s.len() {
                    let k = vstd::utf8::decode_utf8(kb);
                    match sp_value(s, nk, d) {
                        Outcome::Fail { err } => {},
                        Outcome::Good { v, next } => {
                            if nk < next <= s.len() {
                                let acc2 = crate::value::dict_put(acc, k, v);
                                let f2 = if kb == ik {
                                    Option::Some((sp_skip(s, nk), next))
                                } else {
                                    f0
                                };
                                vstd::utf8::decode_utf8_encode_utf8(kb);
                                vstd::utf8::encode_utf8_decode_utf8("info"@);
                                crate::value::lemma_dict_put_get(acc, k, v, "info"@);
                                if kb != ik {
                                    assert(k != "info"@);
                                    assert(crate::value::dict_get(acc2, "info"@)
                                        == crate::value::dict_get(acc, "info"@));
                                }
                                lemma_entries_scan(s, next, d, acc2, start, f2);
                            }
                        },
                    }
                }
            },
            Outcome::Good { v: _, next: _ } => {},
        }
    }
}

/// Whenever a document decodes to a dictionary that binds the key `info`,
/// the span of the `info` value exists, so the info hash can be computed.
pub proof fn lemma_decode_gives_info_span(s: Seq<u8>)
    requires
        crate::parsing::sp_parse(s) matches Outcome::Good { v: BenValue::Dict { entries }, next }
            && crate::value::dict_get(entries, "info"@) is Some,
    ensures
        spec_info_span(s) is Some,
{
    lemma_sp_skip(s, 0);
    let p = sp_skip(s, 0);
    assert(0 <= p && p < s.len());
    assert(s[p] == 100) by {
        if s[p] == 108 {
            crate::parsing::lemma_sp_items_wf(
                s,
                p + 1,
                (MAX_DEPTH - 1) as nat,
                Seq::empty(),
                p,
            );
        }
    }
    lemma_entries_scan(
        s,
        p + 1,
        (MAX_DEPTH - 1) as nat,
        Seq::empty(),
        p,
        Option::None,
    );
}

} // verus!
