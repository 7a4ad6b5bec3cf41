//! Announce-request parameters for the tracker exchange.
//!
//! The network exchange itself is outside the codec; this module only
//! assembles the query parameters that an announce request carries, with
//! the info hash rendered in lowercase hexadecimal.

use vstd::prelude::*;
use vstd::string::StringExecFns;
use crate::torrent::TorrentMeta;

verus! {

/// The lowercase hexadecimal digit for a value below sixteen.
pub open spec fn hex_digit_spec(n: u8) -> char {
    if n == 0 {
        '0'
    } else if n == 1 {
        '1'
    } else if n == 2 {
        '2'
    } else if n == 3 {
        '3'
    } else if n == 4 {
        '4'
    } else if n == 5 {
        '5'
    } else if n == 6 {
        '6'
    } else if n == 7 {
        '7'
    } else if n == 8 {
        '8'
    } else if n == 9 {
        '9'
    } else if n == 10 {
        'a'
    } else if n == 11 {
        'b'
    } else if n == 12 {
        'c'
    } else if n == 13 {
        'd'
    } else if n == 14 {
        'e'
    } else {
        'f'
    }
}

/// The lowercase hexadecimal rendering of a byte sequence: two digits per
/// byte, high nibble first.
pub open spec fn hex_chars(bs: Seq<u8>) -> Seq<char> {
    Seq::new(
        2 * bs.len(),
        |i: int|
            if i % 2 == 0 {
                hex_digit_spec(bs[i / 2] >> 4u8)
            } else {
                hex_digit_spec(bs[i / 2] & 15u8)
            },
    )
}

/// One lowercase hexadecimal digit, as a string slice.
fn hex_digit_str(n: u8) -> (r: &'static str)
    requires
        n < 16,
    ensures
        r@.len() == 1,
        r@[0] == hex_digit_spec(n),
{
    proof {
        reveal_strlit("0");
        reveal_strlit("1");
        reveal_strlit("2");
        reveal_strlit("3");
        reveal_strlit("4");
        reveal_strlit("5");
        reveal_strlit("6");
        reveal_strlit("7");
        reveal_strlit("8");
        reveal_strlit("9");
        reveal_strlit("a");
        reveal_strlit("b");
        reveal_strlit("c");
        reveal_strlit("d");
        reveal_strlit("e");
        reveal_strlit("f");
    }
    match n {
        0 => "0",
        1 => "1",
        2 => "2",
        3 => "3",
        4 => "4",
        5 => "5",
        6 => "6",
        7 => "7",
        8 => "8",
        9 => "9",
        10 => "a",
        11 => "b",
        12 => "c",
        13 => "d",
        14 => "e",
        15 => "f",
        _ => unreached(),
    }
}

/// Render bytes as lowercase hexadecimal text.
pub fn hex_string(bytes: &[u8]) -> (r: String)
    ensures
        r@ == hex_chars(bytes@),
{
    let mut out = String::new();
    let mut i: usize = 0;
    while i < bytes.len()
        invariant
            i <= bytes@.len(),
            out@ == hex_chars(bytes@).subrange(0, 2 * i as int),
        decreases bytes@.len() - i,
    {
        let b = bytes[i];
        proof {
            assert(b >> 4u8 < 16) by (bit_vector);
            assert(b & 15u8 < 16) by (bit_vector);
        }
        let hi = hex_digit_str(b >> 4);
        out.append(hi);
        let lo = hex_digit_str(b & 15);
        out.append(lo);
        proof {
            assert((2 * (i as int)) % 2 == 0);
            assert((2 * (i as int) + 1) % 2 == 1);
            assert((2 * (i as int)) / 2 == i as int);
            assert((2 * (i as int) + 1) / 2 == i as int);
            assert(hex_chars(bytes@)[2 * (i as int)] == hex_digit_spec(b >> 4u8));
            assert(hex_chars(bytes@)[2 * (i as int) + 1] == hex_digit_spec(b & 15u8));
            assert(out@ =~= hex_chars(bytes@).subrange(0, 2 * (i as int + 1)));
        }
        i += 1;
    }
    proof {
        assert(hex_chars(bytes@).subrange(0, 2 * (bytes@.len() as int)) =~= hex_chars(bytes@));
    }
    out
}

/// The party of the tracker exchange; its network side lives outside the
/// codec.
pub struct Peers {}

impl Peers {
    /// The query parameters of an announce request for a torrent whose
    /// info hash has been computed: the hash in lowercase hexadecimal, and
    /// the session fields, not yet filled in, empty.
    pub fn generate_params_for_peers(t_info: &TorrentMeta) -> (r: Vec<(String, String)>)
        requires
            t_info.info_hash is Some,
        ensures
            r@.len() == 7,
            r@[0].0@ == "info_hash"@,
            t_info.info_hash matches Some(h) ==> r@[0].1@ == hex_chars(h@),
            r@[1].0@ == "peer_id"@ && r@[1].1@ == Seq::<char>::empty(),
            r@[2].0@ == "port"@ && r@[2].1@ == Seq::<char>::empty(),
            r@[3].0@ == "uploaded"@ && r@[3].1@ == Seq::<char>::empty(),
            r@[4].0@ == "downloaded"@ && r@[4].1@ == Seq::<char>::empty(),
            r@[5].0@ == "left"@ && r@[5].1@ == Seq::<char>::empty(),
            r@[6].0@ == "event"@ && r@[6].1@ == Seq::<char>::empty(),
    {
        let hash = match &t_info.info_hash {
            Option::Some(h) => hex_string(h.as_slice()),
            Option::None => unreached(),
        };
        let mut params: Vec<(String, String)> = Vec::new();
        params.push((String::from_str("info_hash"), hash));
        params.push((String::from_str("peer_id"), String::new()));
        params.push((String::from_str("port"), String::new()));
        params.push((String::from_str("uploaded"), String::new()));
        params.push((String::from_str("downloaded"), String::new()));
        params.push((String::from_str("left"), String::new()));
        params.push((String::from_str("event"), String::new()));
        params
    }
}

} // verus!
