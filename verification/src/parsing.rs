//! The bencode decoder: a recursive-descent parser over untrusted bytes.
//!
//! The grammar is specified first, as a ghost parser (`sp_value` and its
//! companions) that maps a byte sequence and a position to either a parsed
//! value with the position after it, or a decode error.  The executable
//! parser `BencodeParser` mirrors it exactly: its result, success or failure,
//! is the ghost parser's result.
//!
//! Whitespace (`\n`, `\t`) is skipped where the grammar expects the start of
//! a token; the content of a byte string is consumed verbatim.  Dictionary
//! entries are inserted in sorted key order, a later duplicate key replacing
//! an earlier one.  Recursion depth is capped: deeper documents fail with
//! `NestingTooDeep` instead of exhausting the call stack.

use vstd::prelude::*;
use crate::value::{
    BenStruct, BenValue, ben_inv, dict_put, entries_sorted, entry_views_of, int_fits, key_lt,
    len_ok, len_ok_entries, len_ok_items, view_of, views_of, wf, wf_entries, wf_items,
};

verus! {

/// Maximum nesting depth the decoder accepts.
pub const MAX_DEPTH: usize = 64;

/// A decode error, with the byte offset that diagnoses it: the offset of the
/// construct for a malformed or unterminated construct, the offset of the
/// offending byte or key otherwise, and the input length when input ended
/// where a value was expected.
#[derive(Debug, Clone, Copy, PartialEq, Eq, Structural)]
pub enum BenError {
    /// `i` with no digits, a missing `e` terminator, or a value outside the
    /// machine integer range.
    MalformedInteger { offset: usize },
    /// Fewer content bytes than the declared length, or input ending in the
    /// length digits.
    TruncatedByteString { offset: usize },
    /// Input ended inside a list.
    UnterminatedList { offset: usize },
    /// Input ended inside a dictionary.
    UnterminatedDictionary { offset: usize },
    /// A dictionary key that is not a byte string, or not valid text.
    NonStringDictionaryKey { offset: usize },
    /// The document nests deeper than `MAX_DEPTH`.
    NestingTooDeep { offset: usize },
    /// A byte that no grammar rule expects.
    UnexpectedByte { offset: usize },
    /// Input ended where a value was expected.
    UnexpectedEnd { offset: usize },
}

/// Outcome of the ghost parser: a value and the position after it, or an
/// error.
pub enum Outcome {
    Good { v: BenValue, next: int },
    Fail { err: BenError },
}

/// Bytes the delimiter scanner skips: line feed and tab.
pub open spec fn is_ws(b: u8) -> bool {
    b == 10 || b == 9
}

/// ASCII decimal digit.
pub open spec fn is_digit(b: u8) -> bool {
    48 <= b && b <= 57
}

/// Position of the first non-whitespace byte at or after `pos`.
pub open spec fn sp_skip(s: Seq<u8>, pos: int) -> int
    decreases s.len() - pos,
{
    if 0 <= pos && pos < s.len() && is_ws(s[pos]) {
        sp_skip(s, pos + 1)
    } else {
        pos
    }
}

/// `sp_skip` stays in bounds, skips only whitespace, and stops at the first
/// byte that is not whitespace.
pub proof fn lemma_sp_skip(s: Seq<u8>, pos: int)
    requires
        0 <= pos <= s.len(),
    ensures
        pos <= sp_skip(s, pos) <= s.len(),
        forall|j: int| pos <= j < sp_skip(s, pos) ==> is_ws(s[j]),
        sp_skip(s, pos) < s.len() ==> !is_ws(s[sp_skip(s, pos)]),
    decreases s.len() - pos,
{
    if pos < s.len() && is_ws(s[pos]) {
        lemma_sp_skip(s, pos + 1);
    }
}

/// Position of the first non-digit byte at or after `pos`.
pub open spec fn sp_digits_end(s: Seq<u8>, pos: int) -> int
    decreases s.len() - pos,
{
    if 0 <= pos && pos < s.len() && is_digit(s[pos]) {
        sp_digits_end(s, pos + 1)
    } else {
        pos
    }
}

/// `sp_digits_end` stays in bounds, passes only digits, and stops at the
/// first byte that is not a digit.
pub proof fn lemma_sp_digits_end(s: Seq<u8>, pos: int)
    requires
        0 <= pos <= s.len(),
    ensures
        pos <= sp_digits_end(s, pos) <= s.len(),
        forall|j: int| pos <= j < sp_digits_end(s, pos) ==> is_digit(s[j]),
        sp_digits_end(s, pos) < s.len() ==> !is_digit(s[sp_digits_end(s, pos)]),
    decreases s.len() - pos,
{
    if pos < s.len() && is_digit(s[pos]) {
        lemma_sp_digits_end(s, pos + 1);
    }
}

/// Numeric value of a digit string, most significant digit first.
pub open spec fn digits_val(ds: Seq<u8>) -> int
    decreases ds.len(),
{
    if ds.len() == 0 {
        0
    } else {
        digits_val(ds.drop_last()) * 10 + (ds.last() - 48)
    }
}

/// The value of a digit string is nonnegative.
pub proof fn lemma_digits_val_nonneg(ds: Seq<u8>)
    requires
        forall|j: int| 0 <= j < ds.len() ==> is_digit(#[trigger] ds[j]),
    ensures
        digits_val(ds) >= 0,
    decreases ds.len(),
{
    if ds.len() > 0 {
        assert forall|j: int| 0 <= j < ds.drop_last().len() implies is_digit(
            #[trigger] ds.drop_last()[j],
        ) by {
            assert(ds.drop_last()[j] == ds[j]);
        }
        lemma_digits_val_nonneg(ds.drop_last());
    }
}

/// Ghost parse of an integer whose `i` tag stands at `pos`.
pub open spec fn sp_int(s: Seq<u8>, pos: int) -> Outcome {
    let body = pos + 1;
    let neg = body < s.len() && s[body] == 45;
    let dstart = if neg {
        body + 1
    } else {
        body
    };
    let dend = sp_digits_end(s, dstart);
    if dend == dstart {
        Outcome::Fail { err: BenError::MalformedInteger { offset: pos as usize } }
    } else if dend >= s.len() || s[dend] != 101 {
        Outcome::Fail { err: BenError::MalformedInteger { offset: pos as usize } }
    } else {
        let m = digits_val(s.subrange(dstart, dend));
        let iv = if neg {
            -m
        } else {
            m
        };
        if int_fits(iv) {
            Outcome::Good { v: BenValue::Int { i: iv }, next: dend + 1 }
        } else {
            Outcome::Fail { err: BenError::MalformedInteger { offset: pos as usize } }
        }
    }
}

/// Ghost parse of a byte string whose first length digit stands at `pos`.
pub open spec fn sp_bytes(s: Seq<u8>, pos: int) -> Outcome {
    let dend = sp_digits_end(s, pos);
    let n = digits_val(s.subrange(pos, dend));
    if dend >= s.len() {
        Outcome::Fail { err: BenError::TruncatedByteString { offset: pos as usize } }
    } else if s[dend] != 58 {
        Outcome::Fail { err: BenError::UnexpectedByte { offset: dend as usize } }
    } else if dend + 1 + n > s.len() {
        Outcome::Fail { err: BenError::TruncatedByteString { offset: pos as usize } }
    } else {
        Outcome::Good { v: BenValue::Bytes { bs: s.subrange(dend + 1, dend + 1 + n) }, next: dend
            + 1 + n }
    }
}

/// Ghost parse of one value at `pos`, with `depth` recursion levels left.
pub open spec fn sp_value(s: Seq<u8>, pos: int, depth: nat) -> Outcome
    decreases s.len() - pos, depth, 0int,
    via sp_value_decreases
{
    let p = sp_skip(s, pos);
    if pos < 0 || p >= s.len() {
        Outcome::Fail { err: BenError::UnexpectedEnd { offset: s.len() as usize } }
    } else if depth == 0 {
        Outcome::Fail { err: BenError::NestingTooDeep { offset: p as usize } }
    } else if s[p] == 105 {
        sp_int(s, p)
    } else if is_digit(s[p]) {
        sp_bytes(s, p)
    } else if s[p] == 108 {
        sp_items(s, p + 1, (depth - 1) as nat, Seq::empty(), p)
    } else if s[p] == 100 {
        sp_entries(s, p + 1, (depth - 1) as nat, Seq::empty(), p)
    } else {
        Outcome::Fail { err: BenError::UnexpectedByte { offset: p as usize } }
    }
}

/// Ghost parse of the remaining elements of a list whose `l` tag stands at
/// `start`, with the elements parsed so far in `acc`.
pub open spec fn sp_items(
    s: Seq<u8>,
    pos: int,
    depth: nat,
    acc: Seq<BenValue>,
    start: int,
) -> Outcome
    decreases s.len() - pos, depth, 1int,
    via sp_items_decreases
{
    let p = sp_skip(s, pos);
    if pos < 0 || p >= s.len() {
        Outcome::Fail { err: BenError::UnterminatedList { offset: start as usize } }
    } else if s[p] == 101 {
        Outcome::Good { v: BenValue::List { items: acc }, next: p + 1 }
    } else {
        match sp_value(s, p, depth) {
            Outcome::Fail { err } => Outcome::Fail { err },
            Outcome::Good { v, next } => {
                if p < next <= s.len() {
                    sp_items(s, next, depth, acc.push(v), start)
                } else {
                    Outcome::Fail { err: BenError::UnterminatedList { offset: start as usize } }
                }
            },
        }
    }
}

/// Ghost parse of the remaining entries of a dictionary whose `d` tag stands
/// at `start`, with the entries parsed so far in `acc` (sorted, a later
/// duplicate key replacing an earlier one).
pub open spec fn sp_entries(
    s: Seq<u8>,
    pos: int,
    depth: nat,
    acc: Seq<(Seq<char>, BenValue)>,
    start: int,
) -> Outcome
    decreases s.len() - pos, depth, 1int,
    via sp_entries_decreases
{
    let p = sp_skip(s, pos);
    if pos < 0 || p >= s.len() {
        Outcome::Fail { err: BenError::UnterminatedDictionary { offset: start as usize } }
    } else if s[p] == 101 {
        Outcome::Good { v: BenValue::Dict { entries: acc }, next: p + 1 }
    } else if !is_digit(s[p]) {
        Outcome::Fail { err: BenError::NonStringDictionaryKey { offset: p as usize } }
    } else {
        match sp_bytes(s, p) {
            Outcome::Fail { err } => Outcome::Fail { err },
            Outcome::Good { v: BenValue::Bytes { bs: kb }, next: nk } => {
                if !vstd::utf8::valid_utf8(kb) {
                    Outcome::Fail { err: BenError::NonStringDictionaryKey { offset: p as usize } }
                } else if !(p < nk <= s.len()) {
                    Outcome::Fail { err: BenError::UnterminatedDictionary {
                        offset: start as usize,
                    } }
                } else {
                    let k = vstd::utf8::decode_utf8(kb);
                    match sp_value(s, nk, depth) {
                        Outcome::Fail { err } => Outcome::Fail { err },
                        Outcome::Good { v, next } => {
                            if nk < next <= s.len() {
                                sp_entries(s, next, depth, dict_put(acc, k, v), start)
                            } else {
                                Outcome::Fail { err: BenError::UnterminatedDictionary {
                                    offset: start as usize,
                                } }
                            }
                        },
                    }
                }
            },
            Outcome::Good { v: _, next: _ } => Outcome::Fail { err:
                BenError::NonStringDictionaryKey { offset: p as usize } },
        }
    }
}

#[via_fn]
proof fn sp_value_decreases(s: Seq<u8>, pos: int, depth: nat) {
    if 0 <= pos && pos <= s.len() {
        lemma_sp_skip(s, pos);
    }
}

#[via_fn]
proof fn sp_items_decreases(s: Seq<u8>, pos: int, depth: nat, acc: Seq<BenValue>, start: int) {
    if 0 <= pos && pos <= s.len() {
        lemma_sp_skip(s, pos);
    }
}

#[via_fn]
proof fn sp_entries_decreases(
    s: Seq<u8>,
    pos: int,
    depth: nat,
    acc: Seq<(Seq<char>, BenValue)>,
    start: int,
) {
    if 0 <= pos && pos <= s.len() {
        lemma_sp_skip(s, pos);
    }
}

/// Ghost parse of a whole document: one value from the start, at full depth.
/// Trailing bytes after the value are permitted and ignored.
pub open spec fn sp_parse(s: Seq<u8>) -> Outcome {
    sp_value(s, 0, MAX_DEPTH as nat)
}

/// A successfully parsed value is well formed, and parsing advances the
/// position while staying inside the input.
pub proof fn lemma_sp_value_wf(s: Seq<u8>, pos: int, depth: nat)
    ensures
        sp_value(s, pos, depth) matches Outcome::Good { v, next } ==> wf(v) && pos < next
            <= s.len(),
    decreases s.len() - pos, depth, 0int,
{
    let p = sp_skip(s, pos);
    if pos < 0 || p >= s.len() {
    } else {
        lemma_sp_skip(s, pos);
        if depth == 0 {
        } else if s[p] == 105 {
            let body = p + 1;
            let neg = body < s.len() && s[body] == 45;
            let dstart: int = if neg {
                body + 1
            } else {
                body
            };
            lemma_sp_digits_end(s, dstart);
        } else if is_digit(s[p]) {
            let dend = sp_digits_end(s, p);
            lemma_sp_digits_end(s, p);
            lemma_digits_val_nonneg(s.subrange(p, dend));
        } else if s[p] == 108 {
            lemma_sp_items_wf(s, p + 1, (depth - 1) as nat, Seq::empty(), p);
        } else if s[p] == 100 {
            lemma_sp_entries_wf(s, p + 1, (depth - 1) as nat, Seq::empty(), p);
        }
    }
}

/// A successfully parsed list body extends well-formed accumulated elements
/// to a well-formed list, advancing the position.
pub proof fn lemma_sp_items_wf(
    s: Seq<u8>,
    pos: int,
    depth: nat,
    acc: Seq<BenValue>,
    start: int,
)
    requires
        wf_items(acc),
    ensures
        sp_items(s, pos, depth, acc, start) matches Outcome::Good { v, next } ==> wf(v)
            && v is List && pos - 1 < next <= s.len(),
    decreases s.len() - pos, depth, 1int,
{
    broadcast use crate::value::lemma_wf_items;

    let p = sp_skip(s, pos);
    if pos < 0 || p >= s.len() {
    } else {
        lemma_sp_skip(s, pos);
        if s[p] == 101 {
        } else {
            lemma_sp_value_wf(s, p, depth);
            match sp_value(s, p, depth) {
                Outcome::Fail { err } => {},
                Outcome::Good { v, next } => {
                    if p < next <= s.len() {
                        assert(wf_items(acc.push(v)));
                        lemma_sp_items_wf(s, next, depth, acc.push(v), start);
                    }
                },
            }
        }
    }
}

/// A successfully parsed dictionary body extends sorted, well-formed
/// accumulated entries to a well-formed dictionary, advancing the position.
pub proof fn lemma_sp_entries_wf(
    s: Seq<u8>,
    pos: int,
    depth: nat,
    acc: Seq<(Seq<char>, BenValue)>,
    start: int,
)
    requires
        wf_entries(acc),
        entries_sorted(acc),
    ensures
        sp_entries(s, pos, depth, acc, start) matches Outcome::Good { v, next } ==> wf(v)
            && v is Dict && pos - 1 < next <= s.len(),
    decreases s.len() - pos, depth, 1int,
{
    let p = sp_skip(s, pos);
    if pos < 0 || p >= s.len() {
    } else {
        lemma_sp_skip(s, pos);
        if s[p] == 101 {
        } else if !is_digit(s[p]) {
        } else {
            match sp_bytes(s, p) {
                Outcome::Fail { err } => {},
                Outcome::Good { v: BenValue::Bytes { bs: kb }, next: nk } => {
                    if vstd::utf8::valid_utf8(kb) && p < nk <= s.len() {
                        let k = vstd::utf8::decode_utf8(kb);
                        lemma_sp_value_wf(s, nk, depth);
                        match sp_value(s, nk, depth) {
                            Outcome::Fail { err } => {},
                            Outcome::Good { v, next } => {
                                if nk < next <= s.len() {
                                    crate::value::lemma_dict_put_sorted(acc, k, v);
                                    lemma_sp_entries_wf(
                                        s,
                                        next,
                                        depth,
                                        dict_put(acc, k, v),
                                        start,
                                    );
                                }
                            },
                        }
                    }
                },
                Outcome::Good { v: _, next: _ } => {},
            }
        }
    }
}

/// The executable result mirrors a ghost outcome: a success carries the
/// parsed value (by its model) and leaves the cursor at the following
/// position; a failure carries exactly the ghost error.
pub open spec fn reflects(o: Outcome, r: Result<BenStruct, BenError>, cur: int) -> bool {
    match r {
        Result::Ok(v) => o == (Outcome::Good { v: view_of(v), next: cur }),
        Result::Err(e) => o == (Outcome::Fail { err: e }),
    }
}

/// Appending a digit multiplies the value by ten and adds the digit.
pub proof fn lemma_digits_val_step(s: Seq<u8>, from: int, i: int)
    requires
        0 <= from <= i < s.len(),
    ensures
        digits_val(s.subrange(from, i + 1)) == digits_val(s.subrange(from, i)) * 10 + (s[i]
            - 48),
{
    assert(s.subrange(from, i + 1).drop_last() =~= s.subrange(from, i));
    assert(s.subrange(from, i + 1).last() == s[i]);
}

/// Value of the digit run `v[from..to)`, unless it exceeds `limit`.
fn digits_value_clamped(v: &Vec<u8>, from: usize, to: usize, limit: u128) -> (r: Option<u128>)
    requires
        from <= to <= v@.len(),
        forall|j: int| from <= j < to ==> is_digit(#[trigger] v@[j]),
        limit <= (u128::MAX - 9) / 10,
    ensures
        r matches Some(n) ==> n == digits_val(v@.subrange(from as int, to as int)) && n <= limit,
        r is None ==> digits_val(v@.subrange(from as int, to as int)) > limit,
{
    let mut acc: u128 = 0;
    let mut over: bool = false;
    let mut i: usize = from;
    proof {
        assert(v@.subrange(from as int, from as int) =~= Seq::<u8>::empty());
    }
    while i < to
        invariant
            from <= i <= to <= v@.len(),
            limit <= (u128::MAX - 9) / 10,
            forall|j: int| from <= j < to ==> is_digit(#[trigger] v@[j]),
            !over ==> acc == digits_val(v@.subrange(from as int, i as int)) && acc <= limit,
            over ==> digits_val(v@.subrange(from as int, i as int)) > limit,
        decreases to - i,
    {
        let d = v[i];
        proof {
            lemma_digits_val_step(v@, from as int, i as int);
            if over {
                lemma_digits_val_nonneg(v@.subrange(from as int, i as int));
            }
        }
        if !over {
            let next = acc * 10 + ((d - 48) as u128);
            if next > limit {
                over = true;
            } else {
                acc = next;
            }
        }
        i += 1;
    }
    if over {
        None
    } else {
        Some(acc)
    }
}

/// This is a bencode parser: an index-based cursor over a fixed byte buffer,
/// so byte offsets stay available after a value is built.
pub struct BencodeParser {
    pub encoded_bc_source: Vec<u8>,
    pub cursor: usize,
    pub decoded_bc: BenStruct,
}

impl BencodeParser {
    /// The cursor never passes the end of the source.
    pub open spec fn inv(&self) -> bool {
        self.cursor <= self.encoded_bc_source@.len()
    }

    /// Strip every line feed and tab from a raw byte stream.
    ///
    /// This whole-stream preprocessing also strips whitespace out of byte
    /// string contents; the decoder itself does not use it, and instead
    /// skips whitespace only where the grammar expects the start of a token,
    /// leaving contents verbatim.
    pub fn parse_input(content: Vec<u8>) -> (r: Vec<u8>)
        ensures
            r@ == content@.filter(|b: u8| !is_ws(b)),
    {
        let ghost pred = |b: u8| !is_ws(b);
        let mut out: Vec<u8> = Vec::new();
        let mut i: usize = 0;
        proof {
            assert(content@.subrange(0, 0) =~= Seq::<u8>::empty());
            assert(Seq::<u8>::empty().filter(pred) =~= Seq::<u8>::empty()) by {
                reveal(Seq::filter);
            }
        }
        while i < content.len()
            invariant
                i <= content@.len(),
                out@ == content@.subrange(0, i as int).filter(pred),
                pred == (|b: u8| !is_ws(b)),
            decreases content@.len() - i,
        {
            let b = content[i];
            proof {
                assert(content@.subrange(0, i as int + 1).drop_last() =~= content@.subrange(
                    0,
                    i as int,
                ));
                assert(content@.subrange(0, i as int + 1).last() == content@[i as int]);
                assert(content@.subrange(0, i as int + 1).filter(pred) == if pred(b) {
                    content@.subrange(0, i as int).filter(pred).push(b)
                } else {
                    content@.subrange(0, i as int).filter(pred)
                }) by {
                    reveal(Seq::filter);
                }
            }
            if b != 10 && b != 9 {
                out.push(b);
            }
            i += 1;
        }
        proof {
            assert(content@.subrange(0, content@.len() as int) =~= content@);
        }
        out
    }

    /// A parser over the bytes of a bencode string.
    pub fn new_w_string(bc: String) -> (r: BencodeParser)
        ensures
            r.encoded_bc_source@ == vstd::utf8::encode_utf8(bc@),
            r.cursor == 0,
            r.decoded_bc is Null,
            r.inv(),
    {
        BencodeParser {
            encoded_bc_source: vstd::slice::slice_to_vec(bc.as_str().as_bytes()),
            cursor: 0,
            decoded_bc: BenStruct::Null,
        }
    }

    /// A parser over raw bencode bytes, as read from a metainfo file.
    pub fn new_w_bytes(content: Vec<u8>) -> (r: BencodeParser)
        ensures
            r.encoded_bc_source@ == content@,
            r.cursor == 0,
            r.decoded_bc is Null,
            r.inv(),
    {
        BencodeParser { encoded_bc_source: content, cursor: 0, decoded_bc: BenStruct::Null }
    }

    /// Consume and return the byte at the cursor, if any is left.
    pub(crate) fn advance(&mut self) -> (r: Option<u8>)
        requires
            old(self).inv(),
        ensures
            final(self).inv(),
            final(self).encoded_bc_source == old(self).encoded_bc_source,
            final(self).decoded_bc == old(self).decoded_bc,
            old(self).cursor < old(self).encoded_bc_source@.len() ==> r == Some(
                old(self).encoded_bc_source@[old(self).cursor as int],
            ) && final(self).cursor == old(self).cursor + 1,
            old(self).cursor >= old(self).encoded_bc_source@.len() ==> r is None
                && final(self).cursor == old(self).cursor,
    {
        if self.cursor < self.encoded_bc_source.len() {
            let b = self.encoded_bc_source[self.cursor];
            self.cursor = self.cursor + 1;
            Some(b)
        } else {
            None
        }
    }

    /// Move the cursor past any whitespace.
    pub(crate) fn skip_ws(&mut self)
        requires
            old(self).inv(),
        ensures
            final(self).inv(),
            final(self).encoded_bc_source == old(self).encoded_bc_source,
            final(self).decoded_bc == old(self).decoded_bc,
            final(self).cursor as int == sp_skip(
                old(self).encoded_bc_source@,
                old(self).cursor as int,
            ),
    {
        let ghost s = self.encoded_bc_source@;
        let ghost c0 = self.cursor as int;
        loop
            invariant
                self.inv(),
                self.encoded_bc_source@ == s,
                self.decoded_bc == old(self).decoded_bc,
                self.encoded_bc_source == old(self).encoded_bc_source,
                sp_skip(s, c0) == sp_skip(s, self.cursor as int),
            ensures
                self.inv(),
                self.encoded_bc_source == old(self).encoded_bc_source,
                self.decoded_bc == old(self).decoded_bc,
                self.cursor as int == sp_skip(s, c0),
            decreases s.len() - self.cursor,
        {
            if self.cursor >= self.encoded_bc_source.len() {
                break;
            }
            let b = self.encoded_bc_source[self.cursor];
            if b != 10 && b != 9 {
                break;
            }
            self.cursor = self.cursor + 1;
        }
    }

    /// Move the cursor past any decimal digits.
    pub(crate) fn scan_digits(&mut self)
        requires
            old(self).inv(),
        ensures
            final(self).inv(),
            final(self).encoded_bc_source == old(self).encoded_bc_source,
            final(self).decoded_bc == old(self).decoded_bc,
            final(self).cursor as int == sp_digits_end(
                old(self).encoded_bc_source@,
                old(self).cursor as int,
            ),
            old(self).cursor <= final(self).cursor,
    {
        let ghost s = self.encoded_bc_source@;
        let ghost c0 = self.cursor as int;
        proof {
            lemma_sp_digits_end(s, c0);
        }
        loop
            invariant
                self.inv(),
                self.encoded_bc_source@ == s,
                self.decoded_bc == old(self).decoded_bc,
                self.encoded_bc_source == old(self).encoded_bc_source,
                c0 <= self.cursor as int,
                sp_digits_end(s, c0) == sp_digits_end(s, self.cursor as int),
            ensures
                self.inv(),
                self.encoded_bc_source == old(self).encoded_bc_source,
                self.decoded_bc == old(self).decoded_bc,
                self.cursor as int == sp_digits_end(s, c0),
                c0 <= self.cursor as int,
            decreases s.len() - self.cursor,
        {
            if self.cursor >= self.encoded_bc_source.len() {
                break;
            }
            let b = self.encoded_bc_source[self.cursor];
            if b < 48 || b > 57 {
                break;
            }
            self.cursor = self.cursor + 1;
        }
    }

    /// Parse an integer whose `i` tag stands at the cursor.
    pub(crate) fn consume_int(&mut self) -> (r: Result<BenStruct, BenError>)
        requires
            old(self).inv(),
            old(self).cursor < old(self).encoded_bc_source@.len(),
            old(self).encoded_bc_source@[old(self).cursor as int] == 105,
        ensures
            final(self).inv(),
            final(self).encoded_bc_source == old(self).encoded_bc_source,
            final(self).decoded_bc == old(self).decoded_bc,
            reflects(
                sp_int(old(self).encoded_bc_source@, old(self).cursor as int),
                r,
                final(self).cursor as int,
            ),
            r is Ok ==> old(self).cursor < final(self).cursor,
            r matches Ok(v) ==> len_ok(v),
    {
        let ghost s = self.encoded_bc_source@;
        let src_len = self.encoded_bc_source.len();
        let t = self.cursor;
        let _ = self.advance();
        let mut neg = false;
        if self.cursor < self.encoded_bc_source.len() && self.encoded_bc_source[self.cursor]
            == 45 {
            neg = true;
            self.cursor = self.cursor + 1;
        }
        let dstart = self.cursor;
        self.scan_digits();
        let dend = self.cursor;
        proof {
            lemma_sp_digits_end(s, dstart as int);
        }
        if dend == dstart {
            return Err(BenError::MalformedInteger { offset: t });
        }
        if dend >= self.encoded_bc_source.len() || self.encoded_bc_source[dend] != 101 {
            return Err(BenError::MalformedInteger { offset: t });
        }
        let limit: u128 = (isize::MAX as u128) + 1;
        let md = digits_value_clamped(&self.encoded_bc_source, dstart, dend, limit);
        let ghost dval = digits_val(s.subrange(dstart as int, dend as int));
        match md {
            None => {
                proof {
                    assert(!int_fits(if neg {
                        -dval
                    } else {
                        dval
                    }));
                }
                Err(BenError::MalformedInteger { offset: t })
            },
            Some(m) => {
                if neg {
                    let value: isize = if m == 0 {
                        0
                    } else {
                        (-(m as i128)) as isize
                    };
                    self.cursor = dend + 1;
                    proof {
                        assert(value as int == -dval);
                        assert(int_fits(-dval));
                    }
                    Ok(BenStruct::Int { data: value })
                } else {
                    if m > (isize::MAX as u128) {
                        proof {
                            assert(!int_fits(dval));
                        }
                        Err(BenError::MalformedInteger { offset: t })
                    } else {
                        self.cursor = dend + 1;
                        Ok(BenStruct::Int { data: m as isize })
                    }
                }
            },
        }
    }

    /// Parse a byte string whose first length digit stands at the cursor.
    pub(crate) fn consume_bytes(&mut self) -> (r: Result<BenStruct, BenError>)
        requires
            old(self).inv(),
            old(self).cursor < old(self).encoded_bc_source@.len(),
            is_digit(old(self).encoded_bc_source@[old(self).cursor as int]),
        ensures
            final(self).inv(),
            final(self).encoded_bc_source == old(self).encoded_bc_source,
            final(self).decoded_bc == old(self).decoded_bc,
            reflects(
                sp_bytes(old(self).encoded_bc_source@, old(self).cursor as int),
                r,
                final(self).cursor as int,
            ),
            r is Ok ==> old(self).cursor < final(self).cursor,
            r matches Ok(v) ==> len_ok(v),
    {
        let ghost s = self.encoded_bc_source@;
        let t = self.cursor;
        self.scan_digits();
        let dend = self.cursor;
        proof {
            lemma_sp_digits_end(s, t as int);
        }
        if dend >= self.encoded_bc_source.len() {
            return Err(BenError::TruncatedByteString { offset: t });
        }
        if self.encoded_bc_source[dend] != 58 {
            return Err(BenError::UnexpectedByte { offset: dend });
        }
        let ghost dval = digits_val(s.subrange(t as int, dend as int));
        let src_len = self.encoded_bc_source.len();
        let md = digits_value_clamped(&self.encoded_bc_source, t, dend, u128::MAX / 16);
        let remaining = src_len - (dend + 1);
        match md {
            None => {
                proof {
                    assert(dval > s.len());
                }
                Err(BenError::TruncatedByteString { offset: t })
            },
            Some(m) => {
                if m > remaining as u128 {
                    Err(BenError::TruncatedByteString { offset: t })
                } else {
                    let n = m as usize;
                    let cstart = dend + 1;
                    let mut data: Vec<u8> = Vec::new();
                    proof {
                        assert(s.subrange(cstart as int, cstart as int) =~= Seq::<u8>::empty());
                    }
                    let mut j: usize = 0;
                    while j < n
                        invariant
                            j <= n,
                            cstart + n <= src_len,
                            src_len == self.encoded_bc_source@.len(),
                            self.encoded_bc_source@ == s,
                            data@ == s.subrange(cstart as int, cstart as int + j as int),
                        decreases n - j,
                    {
                        data.push(self.encoded_bc_source[cstart + j]);
                        proof {
                            assert(s.subrange(cstart as int, cstart as int + j as int + 1)
                                =~= s.subrange(cstart as int, cstart as int + j as int).push(
                                s[cstart as int + j as int],
                            ));
                        }
                        j += 1;
                    }
                    self.cursor = cstart + n;
                    Ok(BenStruct::Byte { length: n as u128, data })
                }
            },
        }
    }


    /// Parse one value at the cursor, with `depth` recursion levels left:
    /// the recursive core of the decoder.  Its result, success or failure,
    /// is exactly the ghost parser's.
    pub(crate) fn process_bencode(&mut self, depth: usize) -> (r: Result<BenStruct, BenError>)
        requires
            old(self).inv(),
        ensures
            final(self).inv(),
            final(self).encoded_bc_source == old(self).encoded_bc_source,
            final(self).decoded_bc == old(self).decoded_bc,
            reflects(
                sp_value(old(self).encoded_bc_source@, old(self).cursor as int, depth as nat),
                r,
                final(self).cursor as int,
            ),
            r is Ok ==> old(self).cursor < final(self).cursor,
            r matches Ok(v) ==> len_ok(v),
        decreases depth,
    {
        let ghost s = self.encoded_bc_source@;
        let ghost c0 = self.cursor as int;
        self.skip_ws();
        proof {
            lemma_sp_skip(s, c0);
        }
        let p = self.cursor;
        if p >= self.encoded_bc_source.len() {
            return Err(BenError::UnexpectedEnd { offset: self.encoded_bc_source.len() });
        }
        if depth == 0 {
            return Err(BenError::NestingTooDeep { offset: p });
        }
        let tag = self.encoded_bc_source[p];
        if tag == 105 {
            self.consume_int()
        } else if 48 <= tag && tag <= 57 {
            self.consume_bytes()
        } else if tag == 108 {
            let start = p;
            self.cursor = p + 1;
            let mut elems: Vec<BenStruct> = Vec::new();
            proof {
                assert(views_of(elems@) =~= Seq::<BenValue>::empty());
                assert(sp_value(s, c0, depth as nat) == sp_items(
                    s,
                    p + 1,
                    (depth - 1) as nat,
                    Seq::empty(),
                    p as int,
                ));
            }
            loop
                invariant
                    self.inv(),
                    depth >= 1,
                    self.encoded_bc_source@ == s,
                    self.encoded_bc_source == old(self).encoded_bc_source,
                    self.decoded_bc == old(self).decoded_bc,
                    c0 == old(self).cursor as int,
                    c0 <= start as int,
                    (start as int) < s.len(),
                    s[start as int] == 108,
                    start < self.cursor,
                    sp_value(s, c0, depth as nat) == sp_items(
                        s,
                        self.cursor as int,
                        (depth - 1) as nat,
                        views_of(elems@),
                        start as int,
                    ),
                    len_ok_items(elems@),
                decreases s.len() - self.cursor,
            {
                let ghost cit = self.cursor as int;
                let ghost acc = views_of(elems@);
                self.skip_ws();
                proof {
                    lemma_sp_skip(s, cit);
                }
                let q = self.cursor;
                if q >= self.encoded_bc_source.len() {
                    proof {
                        assert(sp_items(s, cit, (depth - 1) as nat, acc, start as int)
                            == (Outcome::Fail { err: BenError::UnterminatedList {
                            offset: start as usize,
                        } }));
                    }
                    return Err(BenError::UnterminatedList { offset: start });
                }
                let t2 = self.encoded_bc_source[q];
                if t2 == 101 {
                    self.cursor = q + 1;
                    proof {
                        assert(sp_items(s, cit, (depth - 1) as nat, acc, start as int)
                            == (Outcome::Good { v: BenValue::List { items: acc }, next: q
                            + 1 }));
                    }
                    return Ok(BenStruct::List { data: elems });
                }
                let sub = self.process_bencode(depth - 1);
                match sub {
                    Result::Err(e) => {
                        proof {
                            assert(sp_items(s, cit, (depth - 1) as nat, acc, start as int)
                                == (Outcome::Fail { err: e }));
                        }
                        return Err(e);
                    },
                    Result::Ok(v) => {
                        let ghost prev = elems@;
                        proof {
                            crate::value::lemma_views_of_push(prev, v);
                            crate::value::lemma_len_ok_items(prev);
                        }
                        elems.push(v);
                        proof {
                            crate::value::lemma_len_ok_items(elems@);
                            assert(elems@ == prev.push(v));
                            assert(sp_items(s, cit, (depth - 1) as nat, acc, start as int)
                                == sp_items(
                                s,
                                self.cursor as int,
                                (depth - 1) as nat,
                                views_of(elems@),
                                start as int,
                            ));
                        }
                    },
                }
            }
        } else if tag == 100 {
            let start = p;
            self.cursor = p + 1;
            let mut elems: Vec<(String, BenStruct)> = Vec::new();
            proof {
                assert(entry_views_of(elems@) =~= Seq::<(Seq<char>, BenValue)>::empty());
                assert(sp_value(s, c0, depth as nat) == sp_entries(
                    s,
                    p + 1,
                    (depth - 1) as nat,
                    Seq::empty(),
                    p as int,
                ));
            }
            loop
                invariant
                    self.inv(),
                    depth >= 1,
                    self.encoded_bc_source@ == s,
                    self.encoded_bc_source == old(self).encoded_bc_source,
                    self.decoded_bc == old(self).decoded_bc,
                    c0 == old(self).cursor as int,
                    c0 <= start as int,
                    (start as int) < s.len(),
                    s[start as int] == 100,
                    start < self.cursor,
                    sp_value(s, c0, depth as nat) == sp_entries(
                        s,
                        self.cursor as int,
                        (depth - 1) as nat,
                        entry_views_of(elems@),
                        start as int,
                    ),
                    len_ok_entries(elems@),
                decreases s.len() - self.cursor,
            {
                let ghost cit = self.cursor as int;
                let ghost acc = entry_views_of(elems@);
                self.skip_ws();
                proof {
                    lemma_sp_skip(s, cit);
                }
                let q = self.cursor;
                if q >= self.encoded_bc_source.len() {
                    proof {
                        assert(sp_entries(s, cit, (depth - 1) as nat, acc, start as int)
                            == (Outcome::Fail { err: BenError::UnterminatedDictionary {
                            offset: start as usize,
                        } }));
                    }
                    return Err(BenError::UnterminatedDictionary { offset: start });
                }
                let t2 = self.encoded_bc_source[q];
                if t2 == 101 {
                    self.cursor = q + 1;
                    proof {
                        assert(sp_entries(s, cit, (depth - 1) as nat, acc, start as int)
                            == (Outcome::Good { v: BenValue::Dict { entries: acc }, next: q
                            + 1 }));
                    }
                    return Ok(BenStruct::Dict { data: elems });
                }
                if t2 < 48 || t2 > 57 {
                    proof {
                        assert(sp_entries(s, cit, (depth - 1) as nat, acc, start as int)
                            == (Outcome::Fail { err: BenError::NonStringDictionaryKey {
                            offset: q as usize,
                        } }));
                    }
                    return Err(BenError::NonStringDictionaryKey { offset: q });
                }
                let kres = self.consume_bytes();
                let kstruct = match kres {
                    Result::Err(e) => {
                        proof {
                            assert(sp_entries(s, cit, (depth - 1) as nat, acc, start as int)
                                == (Outcome::Fail { err: e }));
                        }
                        return Err(e);
                    },
                    Result::Ok(kv) => kv,
                };
                let kb = match kstruct {
                    BenStruct::Byte { data, .. } => data,
                    _ => unreached(),
                };
                let ghost nk = self.cursor as int;
                let ks = crate::text::utf8_to_string(&kb);
                let kstr = match ks {
                    Option::None => {
                        proof {
                            assert(sp_entries(s, cit, (depth - 1) as nat, acc, start as int)
                                == (Outcome::Fail { err: BenError::NonStringDictionaryKey {
                                offset: q as usize,
                            } }));
                        }
                        return Err(BenError::NonStringDictionaryKey { offset: q });
                    },
                    Option::Some(t) => t,
                };
                let sub = self.process_bencode(depth - 1);
                match sub {
                    Result::Err(e) => {
                        proof {
                            assert(sp_entries(s, cit, (depth - 1) as nat, acc, start as int)
                                == (Outcome::Fail { err: e }));
                        }
                        return Err(e);
                    },
                    Result::Ok(v) => {
                        let ghost prev = elems@;
                        proof {
                            crate::value::lemma_len_ok_entries(prev);
                        }
                        dict_insert(&mut elems, kstr, v);
                        proof {
                            assert(entry_views_of(elems@) == dict_put(
                                acc,
                                vstd::utf8::decode_utf8(kb@),
                                view_of(v),
                            ));
                            assert(sp_entries(s, cit, (depth - 1) as nat, acc, start as int)
                                == sp_entries(
                                s,
                                self.cursor as int,
                                (depth - 1) as nat,
                                entry_views_of(elems@),
                                start as int,
                            ));
                        }
                    },
                }
            }
        } else {
            Err(BenError::UnexpectedByte { offset: p })
        }
    }

    /// Decode exactly one value from the cursor onward, remembering it as
    /// the parser's decoded value.  Trailing bytes are permitted and
    /// ignored; input the grammar rejects yields the error the ghost parser
    /// names, and nothing is remembered.
    pub fn decode_bencode(&mut self) -> (r: Result<BenStruct, BenError>)
        requires
            old(self).inv(),
        ensures
            final(self).inv(),
            final(self).encoded_bc_source == old(self).encoded_bc_source,
            reflects(
                sp_value(
                    old(self).encoded_bc_source@,
                    old(self).cursor as int,
                    MAX_DEPTH as nat,
                ),
                r,
                final(self).cursor as int,
            ),
            r matches Ok(v) ==> ben_inv(v) && view_of(final(self).decoded_bc) == view_of(v),
            r is Err ==> final(self).decoded_bc == old(self).decoded_bc,
    {
        let ghost s = self.encoded_bc_source@;
        let ghost c0 = self.cursor as int;
        let sub = self.process_bencode(MAX_DEPTH);
        match sub {
            Result::Ok(v) => {
                proof {
                    lemma_sp_value_wf(s, c0, MAX_DEPTH as nat);
                }
                self.decoded_bc = v.duplicate();
                Ok(v)
            },
            Result::Err(e) => Err(e),
        }
    }

    /// Decode exactly one value that must span the whole remaining input:
    /// the strict counterpart of `decode_bencode`.  Any byte left after the
    /// value, whitespace included, is rejected as unexpected.
    pub fn decode_bencode_strict(&mut self) -> (r: Result<BenStruct, BenError>)
        requires
            old(self).inv(),
        ensures
            final(self).inv(),
            final(self).encoded_bc_source == old(self).encoded_bc_source,
            r matches Ok(v) ==> sp_value(
                old(self).encoded_bc_source@,
                old(self).cursor as int,
                MAX_DEPTH as nat,
            ) == (Outcome::Good {
                v: view_of(v),
                next: old(self).encoded_bc_source@.len() as int,
            }) && ben_inv(v) && view_of(final(self).decoded_bc) == view_of(v),
            r matches Err(e) ==> (sp_value(
                old(self).encoded_bc_source@,
                old(self).cursor as int,
                MAX_DEPTH as nat,
            ) == (Outcome::Fail { err: e }) || (sp_value(
                old(self).encoded_bc_source@,
                old(self).cursor as int,
                MAX_DEPTH as nat,
            ) matches Outcome::Good { v, next } && next < old(
                self,
            ).encoded_bc_source@.len() && e == (BenError::UnexpectedByte {
                offset: next as usize,
            }))),
            r is Err ==> final(self).decoded_bc == old(self).decoded_bc,
    {
        let ghost s = self.encoded_bc_source@;
        let ghost c0 = self.cursor as int;
        let sub = self.process_bencode(MAX_DEPTH);
        match sub {
            Result::Ok(v) => {
                if self.cursor < self.encoded_bc_source.len() {
                    return Err(BenError::UnexpectedByte { offset: self.cursor });
                }
                proof {
                    lemma_sp_value_wf(s, c0, MAX_DEPTH as nat);
                }
                self.decoded_bc = v.duplicate();
                Ok(v)
            },
            Result::Err(e) => Err(e),
        }
    }
}

/// Insert a key/value pair into a dictionary body the way `dict_put`
/// specifies: at its place in key byte order, a binding for an equal key
/// replacing the earlier one.
fn dict_insert(entries: &mut Vec<(String, BenStruct)>, key: String, val: BenStruct)
    ensures
        entry_views_of(final(entries)@) == dict_put(
            entry_views_of(old(entries)@),
            key@,
            view_of(val),
        ),
        len_ok_entries(old(entries)@) && len_ok(val) ==> len_ok_entries(final(entries)@),
{
    let ghost ev = entry_views_of(old(entries)@);
    let ghost kv = (key@, view_of(val));
    proof {
        crate::value::lemma_entry_views_of(old(entries)@);
        crate::value::lemma_len_ok_entries(old(entries)@);
    }
    let mut i: usize = 0;
    loop
        invariant
            i <= entries@.len(),
            *entries == *old(entries),
            ev == entry_views_of(entries@),
            ev.len() == entries@.len(),
            kv == (key@, view_of(val)),
            forall|j: int| 0 <= j < ev.len() ==> #[trigger] ev[j] == (entries@[j].0@, view_of(
                entries@[j].1,
            )),
            forall|j: int| 0 <= j < i ==> key_lt((#[trigger] ev[j]).0, key@),
        decreases entries@.len() - i,
    {
        proof {
            crate::value::lemma_dict_put_skip(ev, key@, view_of(val), i as int);
        }
        if i == entries.len() {
            proof {
                assert(ev.subrange(i as int, ev.len() as int)
                    =~= Seq::<(Seq<char>, BenValue)>::empty());
            }
            entries.push((key, val));
            proof {
                crate::value::lemma_entry_views_of(entries@);
                crate::value::lemma_len_ok_entries(entries@);
                crate::value::lemma_len_ok_entries(old(entries)@);
                assert forall|j: int| 0 <= j < entries@.len() implies #[trigger] entry_views_of(
                    entries@,
                )[j] == (ev.subrange(0, i as int) + dict_put(
                    ev.subrange(i as int, ev.len() as int),
                    key@,
                    view_of(val),
                ))[j] by {
                    if j < i {
                        assert(entries@[j] == old(entries)@[j]);
                    }
                }
                assert(entry_views_of(entries@) =~= ev.subrange(0, i as int) + dict_put(
                    ev.subrange(i as int, ev.len() as int),
                    key@,
                    view_of(val),
                ));
            }
            return;
        }
        let ghost tail = ev.subrange(i as int, ev.len() as int);
        proof {
            assert(tail[0] == ev[i as int]);
        }
        let below = crate::value::bytes_lt_exec(
            entries[i].0.as_str().as_bytes(),
            key.as_str().as_bytes(),
        );
        if below {
            i += 1;
            continue;
        }
        let same = crate::value::bytes_eq(
            entries[i].0.as_str().as_bytes(),
            key.as_str().as_bytes(),
        );
        if same {
            proof {
                vstd::utf8::encode_utf8_decode_utf8(entries@[i as int].0@);
                vstd::utf8::encode_utf8_decode_utf8(key@);
                assert(ev[i as int].0 == key@);
                assert(dict_put(tail, key@, view_of(val)) == seq![kv] + tail.drop_first());
            }
            let _ = entries.remove(i);
            entries.insert(i, (key, val));
            proof {
                crate::value::lemma_entry_views_of(entries@);
                crate::value::lemma_len_ok_entries(entries@);
                crate::value::lemma_len_ok_entries(old(entries)@);
                assert forall|j: int| 0 <= j < entries@.len() implies #[trigger] entry_views_of(
                    entries@,
                )[j] == (ev.subrange(0, i as int) + (seq![kv] + tail.drop_first()))[j] by {
                    if j < i {
                        assert(entries@[j] == old(entries)@[j]);
                    } else if j > i {
                        assert(entries@[j] == old(entries)@[j]);
                        assert(tail.drop_first()[j - i - 1] == ev[j]);
                    }
                }
                assert(entry_views_of(entries@) =~= ev.subrange(0, i as int) + (seq![kv]
                    + tail.drop_first()));
            }
            return;
        }
        proof {
            crate::value::lemma_key_lt_total(key@, ev[i as int].0);
            vstd::utf8::encode_utf8_decode_utf8(entries@[i as int].0@);
            vstd::utf8::encode_utf8_decode_utf8(key@);
            assert(key_lt(key@, ev[i as int].0));
            assert(dict_put(tail, key@, view_of(val)) == seq![kv] + tail);
        }
        entries.insert(i, (key, val));
        proof {
            crate::value::lemma_entry_views_of(entries@);
            crate::value::lemma_len_ok_entries(entries@);
            crate::value::lemma_len_ok_entries(old(entries)@);
            assert forall|j: int| 0 <= j < entries@.len() implies #[trigger] entry_views_of(
                entries@,
            )[j] == (ev.subrange(0, i as int) + (seq![kv] + tail))[j] by {
                if j < i {
                    assert(entries@[j] == old(entries)@[j]);
                } else if j > i {
                    assert(entries@[j] == old(entries)@[j - 1]);
                    assert(tail[j - i - 1] == ev[j - 1]);
                }
            }
            assert(entry_views_of(entries@) =~= ev.subrange(0, i as int) + (seq![kv] + tail));
        }
        return;
    }
}

} // verus!
