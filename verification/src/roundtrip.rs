//! Round-trip laws: decoding a canonical encoding yields the encoded value.
//!
//! The central result is `lemma_canonical_round_trip`: for every well-formed
//! value within the decoder's depth cap, the ghost parser applied to the
//! canonical encoding returns exactly that value and consumes exactly the
//! encoding.  Because the executable decoder and encoder are verified
//! against the same ghost functions, the law carries over to them.

use vstd::prelude::*;
use crate::encoding::{
    spec_digits, spec_encode, spec_encode_bytes, spec_encode_entries, spec_encode_int,
    spec_encode_items,
};
use crate::parsing::{
    digits_val, is_digit, is_ws, sp_bytes, sp_digits_end, sp_entries, sp_int, sp_items, sp_parse,
    sp_skip, sp_value, Outcome, MAX_DEPTH,
};
use crate::value::{
    depth_entries, depth_items, depth_of, dict_put, entries_sorted, int_fits, key_lt,
    lemma_dict_put_skip, wf, wf_entries, wf_items, BenValue,
};

verus! {

/// The decimal digits of `n` are digits, at least one, and parse back to
/// `n`.
pub proof fn lemma_digits_props(n: nat)
    ensures
        spec_digits(n).len() >= 1,
        forall|j: int| 0 <= j < spec_digits(n).len() ==> is_digit(#[trigger] spec_digits(n)[j]),
        digits_val(spec_digits(n)) == n,
    decreases n,
{
    if n < 10 {
        assert(spec_digits(n) =~= seq![(48 + n) as u8]);
        assert(digits_val(spec_digits(n)) == digits_val(spec_digits(n).drop_last()) * 10 + ((48
            + n) as u8 - 48));
        assert(spec_digits(n).drop_last() =~= Seq::<u8>::empty());
    } else {
        lemma_digits_props(n / 10);
        let ds = spec_digits(n);
        assert(ds == spec_digits(n / 10).push((48 + n % 10) as u8));
        assert(ds.drop_last() =~= spec_digits(n / 10));
        assert(ds.last() == (48 + n % 10) as u8);
        assert(digits_val(ds) == (n / 10) * 10 + n % 10);
        assert((n / 10) * 10 + n % 10 == n) by (nonlinear_arith);
        assert forall|j: int| 0 <= j < ds.len() implies is_digit(#[trigger] ds[j]) by {
            if j < ds.len() - 1 {
                assert(ds[j] == spec_digits(n / 10)[j]);
            }
        }
    }
}

/// Where a run of digits ends: scanning from its start stops exactly at
/// `to`, the first position that is past the run.
pub proof fn lemma_digits_end_at(s: Seq<u8>, from: int, to: int)
    requires
        0 <= from <= to <= s.len(),
        forall|j: int| from <= j < to ==> is_digit(#[trigger] s[j]),
        to == s.len() || !is_digit(s[to]),
    ensures
        sp_digits_end(s, from) == to,
    decreases to - from,
{
    if from < to {
        lemma_digits_end_at(s, from + 1, to);
    }
}

/// An encoding is never empty, and its first byte is a value tag or a
/// digit: never whitespace, never a terminator.
pub proof fn lemma_encode_first(v: BenValue)
    requires
        wf(v),
    ensures
        spec_encode(v).len() >= 1,
        spec_encode(v)[0] == 105 || spec_encode(v)[0] == 108 || spec_encode(v)[0] == 100
            || is_digit(spec_encode(v)[0]),
{
    match v {
        BenValue::Int { i } => {
            assert(spec_encode(v)[0] == 105);
        },
        BenValue::Bytes { bs } => {
            lemma_digits_props(bs.len());
            assert(spec_encode(v)[0] == spec_digits(bs.len())[0]);
        },
        BenValue::List { items } => {
            assert(spec_encode(v)[0] == 108);
        },
        BenValue::Dict { entries } => {
            assert(spec_encode(v)[0] == 100);
        },
        BenValue::Null => {},
    }
}

/// Parsing at the start of an embedded byte-string encoding yields exactly
/// the encoded bytes and stops right after them.
pub proof fn lemma_parse_enc_bytes(bs: Seq<u8>, s: Seq<u8>, pos: int)
    requires
        0 <= pos,
        pos + spec_encode_bytes(bs).len() <= s.len(),
        s.subrange(pos, pos + spec_encode_bytes(bs).len()) == spec_encode_bytes(bs),
    ensures
        sp_bytes(s, pos) == (Outcome::Good { v: BenValue::Bytes { bs }, next: pos
            + spec_encode_bytes(bs).len() }),
{
    let enc = spec_encode_bytes(bs);
    let ds = spec_digits(bs.len());
    lemma_digits_props(bs.len());
    let dend = pos + ds.len();
    assert forall|j: int| pos <= j < dend implies is_digit(#[trigger] s[j]) by {
        assert(s[j] == s.subrange(pos, pos + enc.len())[j - pos]);
        assert(enc[j - pos] == ds[j - pos]);
    }
    assert(s[dend] == s.subrange(pos, pos + enc.len())[ds.len() as int]);
    assert(enc[ds.len() as int] == 58);
    lemma_digits_end_at(s, pos, dend);
    assert(s.subrange(pos, dend) =~= ds);
    assert(digits_val(s.subrange(pos, dend)) == bs.len());
    assert(s.subrange(dend + 1, dend + 1 + bs.len()) =~= bs) by {
        assert forall|j: int| 0 <= j < bs.len() implies s.subrange(
            dend + 1,
            dend + 1 + bs.len(),
        )[j] == bs[j] by {
            assert(s[dend + 1 + j] == s.subrange(pos, pos + enc.len())[ds.len() + 1 + j]);
            assert(enc[ds.len() + 1 + j] == bs[j]);
        }
    }
}

/// Parsing at the start of an embedded canonical encoding of a well-formed
/// value yields exactly that value and stops right after its encoding.
pub proof fn lemma_parse_encode(v: BenValue, s: Seq<u8>, pos: int, d: nat)
    requires
        wf(v),
        depth_of(v) <= d,
        0 <= pos,
        pos + spec_encode(v).len() <= s.len(),
        s.subrange(pos, pos + spec_encode(v).len()) == spec_encode(v),
    ensures
        sp_value(s, pos, d) == (Outcome::Good { v, next: pos + spec_encode(v).len() }),
    decreases v,
{
    let enc = spec_encode(v);
    lemma_encode_first(v);
    assert forall|j: int| 0 <= j < enc.len() implies s[pos + j] == enc[j] by {
        assert(s.subrange(pos, pos + enc.len())[j] == s[pos + j]);
    }
    assert(s[pos] == enc[0]);
    assert(!is_ws(s[pos]));
    assert(sp_skip(s, pos) == pos);
    match v {
        BenValue::Int { i } => {
            let body = pos + 1;
            let ei = spec_encode_int(i);
            assert(enc == seq![105u8] + ei + seq![101u8]);
            assert forall|j: int| 0 <= j < ei.len() implies enc[1 + j] == ei[j] by {
                assert((seq![105u8] + ei)[1 + j] == ei[j]);
                assert(enc[1 + j] == (seq![105u8] + ei)[1 + j]);
            }
            assert(enc[enc.len() - 1] == 101);
            if i < 0 {
                let m = (-i) as nat;
                let ds = spec_digits(m);
                lemma_digits_props(m);
                assert(ei == seq![45u8] + ds);
                assert(ei[0] == 45);
                assert(s[body] == 45);
                let dstart = body + 1;
                let dend = dstart + ds.len();
                assert forall|j: int| dstart <= j < dend implies is_digit(#[trigger] s[j]) by {
                    assert(ei[1 + (j - dstart)] == ds[j - dstart]);
                    assert(s[j] == enc[1 + 1 + (j - dstart)]);
                }
                assert(dend == pos + enc.len() - 1);
                assert(s[dend] == 101);
                assert(!is_digit(s[dend]));
                lemma_digits_end_at(s, dstart, dend);
                assert forall|j: int| 0 <= j < ds.len() implies s.subrange(dstart, dend)[j]
                    == ds[j] by {
                    assert(s[dstart + j] == enc[2 + j]);
                    assert(enc[1 + (1 + j)] == ei[1 + j]);
                    assert(ei[1 + j] == (seq![45u8] + ds)[1 + j]);
                    assert((seq![45u8] + ds)[1 + j] == ds[j]);
                }
                assert(s.subrange(dstart, dend) =~= ds);
                assert(digits_val(s.subrange(dstart, dend)) == m);
                assert(sp_int(s, pos) == (Outcome::Good { v, next: pos + enc.len() }));
            } else {
                let m = i as nat;
                let ds = spec_digits(m);
                lemma_digits_props(m);
                assert(ei == ds);
                assert(s[body] == ds[0]);
                assert(is_digit(s[body]));
                assert(s[body] != 45);
                let dstart = body;
                let dend = dstart + ds.len();
                assert forall|j: int| dstart <= j < dend implies is_digit(#[trigger] s[j]) by {
                    assert(ei[j - dstart] == ds[j - dstart]);
                    assert(s[j] == enc[1 + (j - dstart)]);
                }
                assert(dend == pos + enc.len() - 1);
                assert(s[dend] == 101);
                assert(!is_digit(s[dend]));
                lemma_digits_end_at(s, dstart, dend);
                assert(s.subrange(dstart, dend) =~= ds);
                assert(digits_val(s.subrange(dstart, dend)) == m);
                assert(sp_int(s, pos) == (Outcome::Good { v, next: pos + enc.len() }));
            }
            assert(s[pos] == 105);
            assert(sp_value(s, pos, d) == sp_int(s, pos));
        },
        BenValue::Bytes { bs } => {
            assert(enc == spec_encode_bytes(bs));
            lemma_parse_enc_bytes(bs, s, pos);
            lemma_digits_props(bs.len());
            assert(enc[0] == spec_digits(bs.len())[0]) by {
                assert((spec_digits(bs.len()) + seq![58u8])[0] == spec_digits(bs.len())[0]);
            }
            assert(is_digit(s[pos]));
            assert(s[pos] != 105);
            assert(sp_value(s, pos, d) == sp_bytes(s, pos));
        },
        BenValue::List { items } => {
            let ein = spec_encode_items(items);
            assert(enc == seq![108u8] + ein + seq![101u8]);
            assert(s[pos] == 108);
            assert(!is_digit(s[pos]) && s[pos] != 105);
            assert(s.subrange(pos + 1, pos + 1 + ein.len()) =~= ein) by {
                assert forall|j: int| 0 <= j < ein.len() implies s.subrange(
                    pos + 1,
                    pos + 1 + ein.len(),
                )[j] == ein[j] by {
                    assert(s[pos + 1 + j] == enc[1 + j]);
                    assert(enc[1 + j] == ein[j]);
                }
            }
            assert(s[pos + 1 + ein.len()] == enc[enc.len() - 1]);
            assert(enc[enc.len() - 1] == 101);
            lemma_parse_encode_items(items, s, pos + 1, (d - 1) as nat, Seq::empty(), pos);
            assert(Seq::<BenValue>::empty() + items =~= items);
            assert(sp_value(s, pos, d) == sp_items(
                s,
                pos + 1,
                (d - 1) as nat,
                Seq::empty(),
                pos,
            ));
        },
        BenValue::Dict { entries } => {
            let een = spec_encode_entries(entries);
            assert(enc == seq![100u8] + een + seq![101u8]);
            assert(s[pos] == 100);
            assert(!is_digit(s[pos]) && s[pos] != 105 && s[pos] != 108);
            assert(s.subrange(pos + 1, pos + 1 + een.len()) =~= een) by {
                assert forall|j: int| 0 <= j < een.len() implies s.subrange(
                    pos + 1,
                    pos + 1 + een.len(),
                )[j] == een[j] by {
                    assert(s[pos + 1 + j] == enc[1 + j]);
                    assert(enc[1 + j] == een[j]);
                }
            }
            assert(s[pos + 1 + een.len()] == enc[enc.len() - 1]);
            assert(enc[enc.len() - 1] == 101);
            lemma_parse_encode_entries(entries, s, pos + 1, (d - 1) as nat, Seq::empty(), pos);
            assert(Seq::<(Seq<char>, BenValue)>::empty() + entries =~= entries);
            assert(sp_value(s, pos, d) == sp_entries(
                s,
                pos + 1,
                (d - 1) as nat,
                Seq::empty(),
                pos,
            ));
        },
        BenValue::Null => {},
    }
}

/// Parsing a list body: the encodings of the remaining elements followed by
/// the terminator extend the accumulated elements to the whole list.
pub proof fn lemma_parse_encode_items(
    items: Seq<BenValue>,
    s: Seq<u8>,
    pos: int,
    d: nat,
    acc: Seq<BenValue>,
    start: int,
)
    requires
        wf_items(items),
        depth_items(items) <= d,
        0 <= pos,
        pos + spec_encode_items(items).len() + 1 <= s.len(),
        s.subrange(pos, pos + spec_encode_items(items).len()) == spec_encode_items(items),
        s[pos + spec_encode_items(items).len()] == 101,
    ensures
        sp_items(s, pos, d, acc, start) == (Outcome::Good { v: BenValue::List {
            items: acc + items,
        }, next: pos + spec_encode_items(items).len() + 1 }),
    decreases items,
{
    let ein = spec_encode_items(items);
    assert forall|j: int| 0 <= j < ein.len() implies s[pos + j] == ein[j] by {
        assert(s.subrange(pos, pos + ein.len())[j] == s[pos + j]);
    }
    if items.len() == 0 {
        assert(s[pos] == 101);
        assert(!is_ws(s[pos]));
        assert(sp_skip(s, pos) == pos);
        assert(acc + items =~= acc);
        assert(sp_items(s, pos, d, acc, start) == (Outcome::Good { v: BenValue::List {
            items: acc,
        }, next: pos + 1 }));
    } else {
        let first = items[0];
        let rest = items.drop_first();
        let e0 = spec_encode(first);
        let er = spec_encode_items(rest);
        assert(ein == e0 + er);
        assert(wf(first) && wf_items(rest));
        assert(depth_of(first) <= d && depth_items(rest) <= d);
        assert(s.subrange(pos, pos + e0.len()) =~= e0) by {
            assert forall|j: int| 0 <= j < e0.len() implies s.subrange(pos, pos + e0.len())[j]
                == e0[j] by {
                assert(ein[j] == e0[j]);
            }
        }
        lemma_parse_encode(first, s, pos, d);
        lemma_encode_first(first);
        assert(s[pos] == e0[0]);
        assert(!is_ws(s[pos]) && s[pos] != 101);
        assert(sp_skip(s, pos) == pos);
        let nx = pos + e0.len();
        assert(s.subrange(nx, nx + er.len()) =~= er) by {
            assert forall|j: int| 0 <= j < er.len() implies s.subrange(nx, nx + er.len())[j]
                == er[j] by {
                assert(s[nx + j] == ein[e0.len() + j]);
                assert(ein[e0.len() + j] == er[j]);
            }
        }
        assert(s[nx + er.len()] == 101);
        lemma_parse_encode_items(rest, s, nx, d, acc.push(first), start);
        assert(acc.push(first) + rest =~= acc + items) by {
            assert forall|j: int| 0 <= j < acc.len() + items.len() implies (acc.push(first)
                + rest)[j] == (acc + items)[j] by {
                if j < acc.len() {
                } else if j == acc.len() {
                    assert((acc.push(first) + rest)[j] == first);
                } else {
                    assert((acc.push(first) + rest)[j] == rest[j - acc.len() - 1]);
                    assert(rest[j - acc.len() - 1] == items[j - acc.len()]);
                }
            }
        }
        assert(sp_items(s, pos, d, acc, start) == sp_items(s, nx, d, acc.push(first), start));
    }
}

/// Parsing a dictionary body: the encodings of the remaining sorted entries
/// followed by the terminator extend the accumulated entries to the whole
/// dictionary, each insertion landing at the end.
pub proof fn lemma_parse_encode_entries(
    es: Seq<(Seq<char>, BenValue)>,
    s: Seq<u8>,
    pos: int,
    d: nat,
    acc: Seq<(Seq<char>, BenValue)>,
    start: int,
)
    requires
        wf_entries(es),
        entries_sorted(es),
        depth_entries(es) <= d,
        0 <= pos,
        pos + spec_encode_entries(es).len() + 1 <= s.len(),
        s.subrange(pos, pos + spec_encode_entries(es).len()) == spec_encode_entries(es),
        s[pos + spec_encode_entries(es).len()] == 101,
        forall|a: int, b: int|
            0 <= a < acc.len() && 0 <= b < es.len() ==> key_lt(
                (#[trigger] acc[a]).0,
                (#[trigger] es[b]).0,
            ),
    ensures
        sp_entries(s, pos, d, acc, start) == (Outcome::Good { v: BenValue::Dict {
            entries: acc + es,
        }, next: pos + spec_encode_entries(es).len() + 1 }),
    decreases es,
{
    let een = spec_encode_entries(es);
    assert forall|j: int| 0 <= j < een.len() implies s[pos + j] == een[j] by {
        assert(s.subrange(pos, pos + een.len())[j] == s[pos + j]);
    }
    if es.len() == 0 {
        assert(s[pos] == 101);
        assert(!is_ws(s[pos]));
        assert(sp_skip(s, pos) == pos);
        assert(acc + es =~= acc);
        assert(sp_entries(s, pos, d, acc, start) == (Outcome::Good { v: BenValue::Dict {
            entries: acc,
        }, next: pos + 1 }));
    } else {
        let e0 = es[0];
        let rest = es.drop_first();
        let kb = vstd::utf8::encode_utf8(e0.0);
        let ek = spec_encode_bytes(kb);
        let ev = spec_encode(e0.1);
        let er = spec_encode_entries(rest);
        assert(een == ek + ev + er);
        assert(wf(e0.1) && wf_entries(rest));
        assert(depth_of(e0.1) <= d && depth_entries(rest) <= d);
        assert forall|i: int, j: int| 0 <= i < j < rest.len() implies key_lt(
            (#[trigger] rest[i]).0,
            (#[trigger] rest[j]).0,
        ) by {
            assert(rest[i] == es[i + 1]);
            assert(rest[j] == es[j + 1]);
        }
        assert(s.subrange(pos, pos + ek.len()) =~= ek) by {
            assert forall|j: int| 0 <= j < ek.len() implies s.subrange(pos, pos + ek.len())[j]
                == ek[j] by {
                assert(een[j] == (ek + ev)[j]);
                assert((ek + ev)[j] == ek[j]);
            }
        }
        lemma_parse_enc_bytes(kb, s, pos);
        lemma_digits_props(kb.len());
        assert(s[pos] == ek[0]);
        assert(ek[0] == spec_digits(kb.len())[0]) by {
            assert((spec_digits(kb.len()) + seq![58u8])[0] == spec_digits(kb.len())[0]);
        }
        assert(is_digit(s[pos]));
        assert(!is_ws(s[pos]) && s[pos] != 101);
        assert(sp_skip(s, pos) == pos);
        vstd::utf8::encode_utf8_valid_utf8(e0.0);
        vstd::utf8::encode_utf8_decode_utf8(e0.0);
        let nk = pos + ek.len();
        assert(s.subrange(nk, nk + ev.len()) =~= ev) by {
            assert forall|j: int| 0 <= j < ev.len() implies s.subrange(nk, nk + ev.len())[j]
                == ev[j] by {
                assert(s[nk + j] == een[ek.len() + j]);
                assert(een[ek.len() + j] == (ek + ev)[ek.len() + j]);
                assert((ek + ev)[ek.len() + j] == ev[j]);
            }
        }
        lemma_parse_encode(e0.1, s, nk, d);
        let nv = nk + ev.len();
        assert(dict_put(acc, e0.0, e0.1) == acc.push(e0)) by {
            lemma_dict_put_skip(acc, e0.0, e0.1, acc.len() as int);
            assert(acc.subrange(0, acc.len() as int) =~= acc);
            assert(acc.subrange(acc.len() as int, acc.len() as int) =~= Seq::<(
                Seq<char>,
                BenValue,
            )>::empty());
            assert(dict_put(Seq::empty(), e0.0, e0.1) =~= seq![(e0.0, e0.1)]);
            assert((e0.0, e0.1) == e0);
            assert(acc + seq![e0] =~= acc.push(e0));
        }
        assert(s.subrange(nv, nv + er.len()) =~= er) by {
            assert forall|j: int| 0 <= j < er.len() implies s.subrange(nv, nv + er.len())[j]
                == er[j] by {
                assert(s[nv + j] == een[ek.len() + ev.len() + j]);
                assert(een[ek.len() + ev.len() + j] == er[j]);
            }
        }
        assert(s[nv + er.len()] == 101);
        assert forall|a: int, b: int|
            0 <= a < acc.push(e0).len() && 0 <= b < rest.len() implies key_lt(
            (#[trigger] acc.push(e0)[a]).0,
            (#[trigger] rest[b]).0,
        ) by {
            assert(rest[b] == es[b + 1]);
            if a < acc.len() {
                assert(acc.push(e0)[a] == acc[a]);
            } else {
                assert(acc.push(e0)[a] == e0);
                assert(key_lt(es[0].0, es[b + 1].0));
            }
        }
        lemma_parse_encode_entries(rest, s, nv, d, acc.push(e0), start);
        assert(acc.push(e0) + rest =~= acc + es) by {
            assert forall|j: int| 0 <= j < acc.len() + es.len() implies (acc.push(e0) + rest)[j]
                == (acc + es)[j] by {
                if j < acc.len() {
                } else if j == acc.len() {
                    assert((acc.push(e0) + rest)[j] == e0);
                } else {
                    assert((acc.push(e0) + rest)[j] == rest[j - acc.len() - 1]);
                    assert(rest[j - acc.len() - 1] == es[j - acc.len()]);
                }
            }
        }
        assert(vstd::utf8::valid_utf8(kb));
        assert(vstd::utf8::decode_utf8(kb) == e0.0);
        assert(sp_entries(s, pos, d, acc, start) == sp_entries(
            s,
            nv,
            d,
            dict_put(acc, e0.0, e0.1),
            start,
        ));
    }
}

/// Law: decoding the encoding of an integer value yields that integer, for
/// every integer in the machine range, consuming the whole encoding.
pub proof fn lemma_int_round_trip(n: int)
    requires
        int_fits(n),
    ensures
        sp_parse(spec_encode(BenValue::Int { i: n })) == (Outcome::Good { v: BenValue::Int {
            i: n,
        }, next: spec_encode(BenValue::Int { i: n }).len() as int }),
{
    lemma_canonical_round_trip(BenValue::Int { i: n });
}

/// Law: decoding the encoding of a byte-string value yields that byte
/// string, for every byte sequence, consuming the whole encoding.
pub proof fn lemma_bytes_round_trip(bs: Seq<u8>)
    ensures
        sp_parse(spec_encode(BenValue::Bytes { bs })) == (Outcome::Good { v: BenValue::Bytes {
            bs,
        }, next: spec_encode(BenValue::Bytes { bs }).len() as int }),
{
    lemma_canonical_round_trip(BenValue::Bytes { bs });
}

/// Law: canonical round trip.  Decoding the canonical encoding of any
/// well-formed value within the decoder's depth cap yields exactly that
/// value and consumes the whole input.
pub proof fn lemma_canonical_round_trip(v: BenValue)
    requires
        wf(v),
        depth_of(v) <= MAX_DEPTH,
    ensures
        sp_parse(spec_encode(v)) == (Outcome::Good { v, next: spec_encode(v).len() as int }),
{
    let enc = spec_encode(v);
    assert(enc.subrange(0, enc.len() as int) =~= enc);
    lemma_parse_encode(v, enc, 0, MAX_DEPTH as nat);
}

/// Law: a canonical source round-trips to identical bytes.  If a byte
/// sequence is the canonical encoding of some well-formed value (that is,
/// its dictionary keys are sorted and unique), then decoding it and
/// re-encoding the decoded value reproduces the source byte for byte.
pub proof fn lemma_canonical_source_identity(s: Seq<u8>, v: BenValue)
    requires
        wf(v),
        depth_of(v) <= MAX_DEPTH,
        s == spec_encode(v),
    ensures
        sp_parse(s) matches Outcome::Good { v: w, next } && spec_encode(w) == s && next
            == s.len(),
{
    lemma_canonical_round_trip(v);
}

} // verus!
