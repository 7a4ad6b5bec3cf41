//! The canonical bencode encoder.
//!
//! `encode_bencode` is the exact inverse grammar of the decoder.  Because a
//! well-formed value stores its dictionary entries strictly sorted by raw key
//! byte order, walking them in storage order emits canonical form.  Encoding
//! a well-formed value cannot fail.

use vstd::prelude::*;
use crate::value::{
    BenStruct, BenValue, entry_views_of, lemma_entry_views_of, lemma_views_of, lemma_wf_entries,
    lemma_wf_items, view_of, views_of, wf,
};

verus! {

/// Decimal digits of `n`, most significant first, no sign, no leading zeros
/// (the single digit `0` for zero).
pub open spec fn spec_digits(n: nat) -> Seq<u8>
    decreases n,
{
    if n < 10 {
        seq![(48 + n) as u8]
    } else {
        spec_digits(n / 10).push((48 + n % 10) as u8)
    }
}

/// Encoding of an integer value: optional minus sign, then decimal digits.
pub open spec fn spec_encode_int(i: int) -> Seq<u8> {
    if i < 0 {
        seq![45u8] + spec_digits((-i) as nat)
    } else {
        spec_digits(i as nat)
    }
}

/// Encoding of a byte string: decimal length, `:`, then the bytes verbatim.
pub open spec fn spec_encode_bytes(bs: Seq<u8>) -> Seq<u8> {
    spec_digits(bs.len()) + seq![58u8] + bs
}

/// Canonical encoding of a value.  (`Null` is not well formed and is given
/// the empty encoding.)
pub open spec fn spec_encode(v: BenValue) -> Seq<u8>
    decreases v,
{
    match v {
        BenValue::Int { i } => seq![105u8] + spec_encode_int(i) + seq![101u8],
        BenValue::Bytes { bs } => spec_encode_bytes(bs),
        BenValue::List { items } => seq![108u8] + spec_encode_items(items) + seq![101u8],
        BenValue::Dict { entries } => seq![100u8] + spec_encode_entries(entries) + seq![101u8],
        BenValue::Null => Seq::empty(),
    }
}

/// Concatenated encodings of a list body, in order.
pub open spec fn spec_encode_items(items: Seq<BenValue>) -> Seq<u8>
    decreases items,
{
    if items.len() == 0 {
        Seq::empty()
    } else {
        spec_encode(items[0]) + spec_encode_items(items.drop_first())
    }
}

/// Concatenated encodings of a dictionary body, in storage order: each key
/// as a byte string (its UTF-8 bytes), then its value.
pub open spec fn spec_encode_entries(es: Seq<(Seq<char>, BenValue)>) -> Seq<u8>
    decreases es,
{
    if es.len() == 0 {
        Seq::empty()
    } else {
        spec_encode_bytes(vstd::utf8::encode_utf8(es[0].0)) + spec_encode(es[0].1)
            + spec_encode_entries(es.drop_first())
    }
}

/// Appending an element to a list body appends its encoding.
pub proof fn lemma_encode_items_push(items: Seq<BenValue>, v: BenValue)
    ensures
        spec_encode_items(items.push(v)) == spec_encode_items(items) + spec_encode(v),
    decreases items,
{
    if items.len() == 0 {
        assert(items.push(v)[0] == v);
        assert(items.push(v).drop_first() =~= Seq::<BenValue>::empty());
        assert(spec_encode_items(items.push(v).drop_first()) == Seq::<u8>::empty());
        assert(spec_encode_items(items.push(v)) == spec_encode(v) + Seq::<u8>::empty());
        assert(spec_encode(v) + Seq::<u8>::empty() =~= spec_encode(v));
        assert(Seq::<u8>::empty() + spec_encode(v) =~= spec_encode(v));
    } else {
        assert(items.push(v)[0] == items[0]);
        assert(items.push(v).drop_first() =~= items.drop_first().push(v));
        lemma_encode_items_push(items.drop_first(), v);
        assert((spec_encode(items[0]) + (spec_encode_items(items.drop_first()) + spec_encode(v)))
            =~= (spec_encode(items[0]) + spec_encode_items(items.drop_first())) + spec_encode(v));
    }
}

/// Appending an entry to a dictionary body appends its encoding.
pub proof fn lemma_encode_entries_push(es: Seq<(Seq<char>, BenValue)>, e: (Seq<char>, BenValue))
    ensures
        spec_encode_entries(es.push(e)) == spec_encode_entries(es) + spec_encode_bytes(
            vstd::utf8::encode_utf8(e.0),
        ) + spec_encode(e.1),
    decreases es,
{
    let ebytes = spec_encode_bytes(vstd::utf8::encode_utf8(e.0)) + spec_encode(e.1);
    if es.len() == 0 {
        assert(es.push(e)[0] == e);
        assert(es.push(e).drop_first() =~= Seq::<(Seq<char>, BenValue)>::empty());
        assert(spec_encode_entries(es.push(e).drop_first()) == Seq::<u8>::empty());
        assert(spec_encode_entries(es.push(e)) == spec_encode_bytes(vstd::utf8::encode_utf8(e.0))
            + spec_encode(e.1) + Seq::<u8>::empty());
        assert(spec_encode_entries(es.push(e)) =~= spec_encode_bytes(
            vstd::utf8::encode_utf8(e.0),
        ) + spec_encode(e.1));
        assert(spec_encode_entries(es) + spec_encode_bytes(vstd::utf8::encode_utf8(e.0))
            + spec_encode(e.1) =~= spec_encode_bytes(vstd::utf8::encode_utf8(e.0)) + spec_encode(
            e.1,
        ));
    } else {
        assert(es.push(e)[0] == es[0]);
        assert(es.push(e).drop_first() =~= es.drop_first().push(e));
        lemma_encode_entries_push(es.drop_first(), e);
        assert(spec_encode_entries(es.push(e)) =~= spec_encode_entries(es) + spec_encode_bytes(
            vstd::utf8::encode_utf8(e.0),
        ) + spec_encode(e.1));
    }
}

/// Append the bytes of a slice to `out`.
fn push_slice(out: &mut Vec<u8>, s: &[u8])
    ensures
        final(out)@ == old(out)@ + s@,
{
    let mut i: usize = 0;
    while i < s.len()
        invariant
            i <= s@.len(),
            out@ == old(out)@ + s@.subrange(0, i as int),
        decreases s@.len() - i,
    {
        out.push(s[i]);
        proof {
            assert(old(out)@ + s@.subrange(0, i as int + 1) =~= (old(out)@ + s@.subrange(
                0,
                i as int,
            )).push(s@[i as int]));
        }
        i += 1;
    }
    proof {
        assert(s@.subrange(0, s@.len() as int) =~= s@);
    }
}

/// Append the decimal digits of `n` to `out`.
fn push_digits(out: &mut Vec<u8>, n: u128)
    ensures
        final(out)@ == old(out)@ + spec_digits(n as nat),
    decreases n,
{
    if n < 10 {
        out.push((48 + n) as u8);
        proof {
            assert(old(out)@ + spec_digits(n as nat) =~= old(out)@.push((48 + n) as u8));
        }
    } else {
        push_digits(out, n / 10);
        out.push((48 + (n % 10)) as u8);
        proof {
            assert(old(out)@ + spec_digits(n as nat) =~= (old(out)@ + spec_digits(
                (n / 10) as nat,
            )).push((48 + n % 10) as u8));
        }
    }
}

/// Append the canonical encoding of `v` to `out`.
fn encode_into(v: &BenStruct, out: &mut Vec<u8>)
    requires
        wf(view_of(*v)),
    ensures
        final(out)@ == old(out)@ + spec_encode(view_of(*v)),
    decreases *v,
{
    match v {
        BenStruct::Int { data } => {
            out.push(105);
            if *data < 0 {
                out.push(45);
                let m: u128 = (-(*data as i128)) as u128;
                push_digits(out, m);
            } else {
                push_digits(out, *data as u128);
            }
            out.push(101);
            proof {
                assert(old(out)@ + spec_encode(view_of(*v)) =~= out@);
            }
        },
        BenStruct::Byte { length, data } => {
            push_digits(out, data.len() as u128);
            out.push(58);
            push_slice(out, data.as_slice());
            proof {
                assert(old(out)@ + spec_encode(view_of(*v)) =~= out@);
            }
        },
        BenStruct::List { data: xs } => {
            out.push(108);
            let ghost vitems = views_of(xs@);
            proof {
                lemma_views_of(xs@);
                lemma_wf_items(vitems);
                assert(view_of(*v) == (BenValue::List { items: vitems }));
            }
            let mut i: usize = 0;
            while i < xs.len()
                invariant
                    i <= xs@.len(),
                    vitems == views_of(xs@),
                    vitems.len() == xs@.len(),
                    view_of(*v) == (BenValue::List { items: vitems }),
                    wf(view_of(*v)),
                    *v == (BenStruct::List { data: *xs }),
                    forall|j: int| 0 <= j < vitems.len() ==> wf(#[trigger] vitems[j]),
                    out@ == old(out)@ + seq![108u8] + spec_encode_items(
                        vitems.subrange(0, i as int),
                    ),
                decreases xs@.len() - i,
            {
                proof {
                    lemma_views_of(xs@);
                    assert(view_of(*v) == (BenValue::List { items: views_of(xs@) }));
                    assert(vitems[i as int] == view_of(xs@[i as int]));
                }
                encode_into(&xs[i], out);
                proof {
                    assert(vitems.subrange(0, i as int).push(vitems[i as int]) =~= vitems.subrange(
                        0,
                        i as int + 1,
                    ));
                    lemma_encode_items_push(vitems.subrange(0, i as int), vitems[i as int]);
                    assert(out@ =~= old(out)@ + seq![108u8] + spec_encode_items(
                        vitems.subrange(0, i as int + 1),
                    ));
                }
                i += 1;
            }
            out.push(101);
            proof {
                assert(vitems.subrange(0, vitems.len() as int) =~= vitems);
                assert(old(out)@ + spec_encode(view_of(*v)) =~= out@);
            }
        },
        BenStruct::Dict { data: xs } => {
            out.push(100);
            let ghost ventries = entry_views_of(xs@);
            proof {
                lemma_entry_views_of(xs@);
                lemma_wf_entries(ventries);
                assert(view_of(*v) == (BenValue::Dict { entries: ventries }));
            }
            let mut i: usize = 0;
            while i < xs.len()
                invariant
                    i <= xs@.len(),
                    ventries == entry_views_of(xs@),
                    ventries.len() == xs@.len(),
                    view_of(*v) == (BenValue::Dict { entries: ventries }),
                    wf(view_of(*v)),
                    *v == (BenStruct::Dict { data: *xs }),
                    forall|j: int| 0 <= j < ventries.len() ==> wf((#[trigger] ventries[j]).1),
                    out@ == old(out)@ + seq![100u8] + spec_encode_entries(
                        ventries.subrange(0, i as int),
                    ),
                decreases xs@.len() - i,
            {
                proof {
                    lemma_entry_views_of(xs@);
                    assert(view_of(*v) == (BenValue::Dict { entries: entry_views_of(xs@) }));
                    assert(ventries[i as int] == (xs@[i as int].0@, view_of(xs@[i as int].1)));
                }
                let kb = xs[i].0.as_str().as_bytes();
                push_digits(out, kb.len() as u128);
                out.push(58);
                push_slice(out, kb);
                proof {
                    assert(out@ =~= old(out)@ + seq![100u8] + spec_encode_entries(
                        ventries.subrange(0, i as int),
                    ) + spec_encode_bytes(vstd::utf8::encode_utf8(ventries[i as int].0)));
                }
                encode_into(&xs[i].1, out);
                proof {
                    assert(ventries.subrange(0, i as int).push(ventries[i as int])
                        =~= ventries.subrange(0, i as int + 1));
                    lemma_encode_entries_push(
                        ventries.subrange(0, i as int),
                        ventries[i as int],
                    );
                    assert(out@ =~= old(out)@ + seq![100u8] + spec_encode_entries(
                        ventries.subrange(0, i as int + 1),
                    ));
                }
                i += 1;
            }
            out.push(101);
            proof {
                assert(ventries.subrange(0, ventries.len() as int) =~= ventries);
                assert(old(out)@ + spec_encode(view_of(*v)) =~= out@);
            }
        },
        BenStruct::Null => {
            proof {
                assert(false);
            }
        },
    }
}

/// Serialize a well-formed value to canonical bencode bytes.
///
/// Dictionary keys are emitted in ascending raw byte order.  Note that the
/// decoder accepts unsorted keys, so encoding a decoded value reproduces the
/// source bytes only when the source was already canonical.
pub fn encode_bencode(v: &BenStruct) -> (r: Vec<u8>)
    requires
        wf(view_of(*v)),
    ensures
        r@ == spec_encode(view_of(*v)),
{
    let mut out: Vec<u8> = Vec::new();
    encode_into(v, &mut out);
    proof {
        assert(out@ =~= spec_encode(view_of(*v)));
    }
    out
}

} // verus!
