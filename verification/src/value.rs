//! The bencode value tree: a closed tagged union with five cases, together
//! with its mathematical model.
//!
//! `BenStruct` is the executable representation; `BenValue` is the
//! mathematical value that contracts speak about.  A dictionary is stored as
//! a vector of key/value pairs whose keys are kept strictly sorted in raw
//! byte order (the canonical bencode key order), so structural equality of
//! the stored form coincides with equality of the mapping.

use vstd::prelude::*;

verus! {

/// Mathematical model of a bencode value.
///
/// Integers are unbounded here; the executable type restricts them to the
/// machine's signed range.  Dictionary entries are ordered key/value pairs;
/// well-formed values keep them strictly sorted by the byte order of the
/// UTF-8 encoding of the key.
pub enum BenValue {
    Int { i: int },
    Bytes { bs: Seq<u8> },
    List { items: Seq<BenValue> },
    Dict { entries: Seq<(Seq<char>, BenValue)> },
    Null,
}

/// A decoded bencode value.
///
/// `Null` is a parse sentinel only: it is never produced as a decoded
/// result and is not well formed.
#[derive(Debug)]
pub enum BenStruct {
    Int { data: isize },
    Byte { length: u128, data: Vec<u8> },
    List { data: Vec<BenStruct> },
    Dict { data: Vec<(String, BenStruct)> },
    Null,
}

/// The model of an executable value: lengths become sequence lengths and the
/// redundant `length` field of a byte string is dropped.
pub open spec fn view_of(b: BenStruct) -> BenValue
    decreases b,
{
    match b {
        BenStruct::Int { data } => BenValue::Int { i: data as int },
        BenStruct::Byte { length, data } => BenValue::Bytes { bs: data@ },
        BenStruct::List { data } => BenValue::List { items: views_of(data@) },
        BenStruct::Dict { data } => BenValue::Dict { entries: entry_views_of(data@) },
        BenStruct::Null => BenValue::Null,
    }
}

/// Element-wise model of a sequence of values.
pub open spec fn views_of(s: Seq<BenStruct>) -> Seq<BenValue>
    decreases s,
{
    if s.len() == 0 {
        Seq::empty()
    } else {
        seq![view_of(s[0])] + views_of(s.drop_first())
    }
}

/// Element-wise model of a sequence of dictionary entries.
pub open spec fn entry_views_of(s: Seq<(String, BenStruct)>) -> Seq<(Seq<char>, BenValue)>
    decreases s,
{
    if s.len() == 0 {
        Seq::empty()
    } else {
        seq![(s[0].0@, view_of(s[0].1))] + entry_views_of(s.drop_first())
    }
}

impl View for BenStruct {
    type V = BenValue;

    open spec fn view(&self) -> BenValue {
        view_of(*self)
    }
}

/// Structural equality of two values, decided at the model level: same
/// variant, same content; lists element-wise in order.  Because dictionaries
/// are stored with sorted keys, comparing their stored entries in order is
/// exactly equality of the mappings.  A byte string's redundant `length`
/// field does not take part in the comparison.
pub fn ben_eq(a: &BenStruct, b: &BenStruct) -> (r: bool)
    ensures
        r == (view_of(*a) == view_of(*b)),
    decreases *a,
{
    broadcast use lemma_views_of, lemma_entry_views_of;

    match (a, b) {
        (BenStruct::Int { data: x }, BenStruct::Int { data: y }) => *x == *y,
        (BenStruct::Byte { data: x, .. }, BenStruct::Byte { data: y, .. }) => bytes_eq(
            x.as_slice(),
            y.as_slice(),
        ),
        (BenStruct::List { data: x }, BenStruct::List { data: y }) => {
            proof {
                assert(views_of(x@).len() == x@.len());
                assert(views_of(y@).len() == y@.len());
                assert(view_of(*a) == (BenValue::List { items: views_of(x@) }));
                assert(view_of(*b) == (BenValue::List { items: views_of(y@) }));
            }
            if x.len() != y.len() {
                return false;
            }
            let mut i: usize = 0;
            while i < x.len()
                invariant
                    i <= x@.len(),
                    x@.len() == y@.len(),
                    *a == (BenStruct::List { data: *x }),
                    *b == (BenStruct::List { data: *y }),
                    forall|j: int| 0 <= j < i ==> view_of(x@[j]) == view_of(y@[j]),
                decreases x@.len() - i,
            {
                if !ben_eq(&x[i], &y[i]) {
                    proof {
                        lemma_views_of(x@);
                        lemma_views_of(y@);
                        assert(views_of(x@)[i as int] == view_of(x@[i as int]));
                        assert(views_of(y@)[i as int] == view_of(y@[i as int]));
                        assert(view_of(*a) == (BenValue::List { items: views_of(x@) }));
                        assert(view_of(*b) == (BenValue::List { items: views_of(y@) }));
                    }
                    return false;
                }
                i += 1;
            }
            proof {
                assert forall|j: int| 0 <= j < x@.len() implies views_of(x@)[j] == views_of(
                    y@,
                )[j] by {
                    assert(views_of(x@)[j] == view_of(x@[j]));
                    assert(views_of(y@)[j] == view_of(y@[j]));
                }
                assert(views_of(x@) =~= views_of(y@));
                assert(view_of(*a) == (BenValue::List { items: views_of(x@) }));
                assert(view_of(*b) == (BenValue::List { items: views_of(y@) }));
            }
            true
        },
        (BenStruct::Dict { data: x }, BenStruct::Dict { data: y }) => {
            proof {
                assert(entry_views_of(x@).len() == x@.len());
                assert(entry_views_of(y@).len() == y@.len());
                assert(view_of(*a) == (BenValue::Dict { entries: entry_views_of(x@) }));
                assert(view_of(*b) == (BenValue::Dict { entries: entry_views_of(y@) }));
            }
            if x.len() != y.len() {
                return false;
            }
            let mut i: usize = 0;
            while i < x.len()
                invariant
                    i <= x@.len(),
                    x@.len() == y@.len(),
                    *a == (BenStruct::Dict { data: *x }),
                    *b == (BenStruct::Dict { data: *y }),
                    forall|j: int|
                        0 <= j < i ==> x@[j].0@ == y@[j].0@ && view_of(x@[j].1) == view_of(
                            y@[j].1,
                        ),
                decreases x@.len() - i,
            {
                let keys_equal = x[i].0.eq(&y[i].0);
                if !keys_equal {
                    proof {
                        lemma_entry_views_of(x@);
                        lemma_entry_views_of(y@);
                        assert(entry_views_of(x@)[i as int] == (x@[i as int].0@, view_of(
                            x@[i as int].1,
                        )));
                        assert(entry_views_of(y@)[i as int] == (y@[i as int].0@, view_of(
                            y@[i as int].1,
                        )));
                        assert(view_of(*a) == (BenValue::Dict { entries: entry_views_of(x@) }));
                        assert(view_of(*b) == (BenValue::Dict { entries: entry_views_of(y@) }));
                    }
                    return false;
                }
                if !ben_eq(&x[i].1, &y[i].1) {
                    proof {
                        lemma_entry_views_of(x@);
                        lemma_entry_views_of(y@);
                        assert(entry_views_of(x@)[i as int] == (x@[i as int].0@, view_of(
                            x@[i as int].1,
                        )));
                        assert(entry_views_of(y@)[i as int] == (y@[i as int].0@, view_of(
                            y@[i as int].1,
                        )));
                        assert(view_of(*a) == (BenValue::Dict { entries: entry_views_of(x@) }));
                        assert(view_of(*b) == (BenValue::Dict { entries: entry_views_of(y@) }));
                    }
                    return false;
                }
                i += 1;
            }
            proof {
                assert forall|j: int| 0 <= j < x@.len() implies entry_views_of(x@)[j]
                    == entry_views_of(y@)[j] by {
                    assert(entry_views_of(x@)[j] == (x@[j].0@, view_of(x@[j].1)));
                    assert(entry_views_of(y@)[j] == (y@[j].0@, view_of(y@[j].1)));
                }
                assert(entry_views_of(x@) =~= entry_views_of(y@));
                assert(view_of(*a) == (BenValue::Dict { entries: entry_views_of(x@) }));
                assert(view_of(*b) == (BenValue::Dict { entries: entry_views_of(y@) }));
            }
            true
        },
        (BenStruct::Null, BenStruct::Null) => true,
        _ => {
            proof {
                assert(view_of(*a) != view_of(*b));
            }
            false
        },
    }
}

impl PartialEq for BenStruct {
    fn eq(&self, other: &BenStruct) -> (r: bool) {
        ben_eq(self, other)
    }
}

impl vstd::std_specs::cmp::PartialEqSpecImpl for BenStruct {
    open spec fn obeys_eq_spec() -> bool {
        true
    }

    open spec fn eq_spec(&self, other: &BenStruct) -> bool {
        view_of(*self) == view_of(*other)
    }
}

/// Declared lengths agree with stored contents everywhere in the tree: a
/// `Byte`'s `length` field equals the length of its data.  Enforced at
/// construction, relied on afterwards.
pub open spec fn len_ok(b: BenStruct) -> bool
    decreases b,
{
    match b {
        BenStruct::Int { data } => true,
        BenStruct::Byte { length, data } => length == data@.len(),
        BenStruct::List { data } => len_ok_items(data@),
        BenStruct::Dict { data } => len_ok_entries(data@),
        BenStruct::Null => true,
    }
}

/// `len_ok` for every element of a list body.
pub open spec fn len_ok_items(s: Seq<BenStruct>) -> bool
    decreases s,
{
    s.len() == 0 || (len_ok(s[0]) && len_ok_items(s.drop_first()))
}

/// `len_ok` for every value of a dictionary body.
pub open spec fn len_ok_entries(s: Seq<(String, BenStruct)>) -> bool
    decreases s,
{
    s.len() == 0 || (len_ok(s[0].1) && len_ok_entries(s.drop_first()))
}

/// `len_ok_items` holds exactly when every element satisfies `len_ok`.
pub broadcast proof fn lemma_len_ok_items(s: Seq<BenStruct>)
    ensures
        #[trigger] len_ok_items(s) <==> (forall|i: int|
            0 <= i < s.len() ==> len_ok(#[trigger] s[i])),
    decreases s,
{
    if s.len() > 0 {
        lemma_len_ok_items(s.drop_first());
        if len_ok(s[0]) && len_ok_items(s.drop_first()) {
            assert forall|i: int| 0 <= i < s.len() implies len_ok(#[trigger] s[i]) by {
                if i > 0 {
                    assert(s.drop_first()[i - 1] == s[i]);
                }
            }
        }
        if forall|i: int| 0 <= i < s.len() ==> len_ok(#[trigger] s[i]) {
            assert forall|i: int| 0 <= i < s.drop_first().len() implies len_ok(
                #[trigger] s.drop_first()[i],
            ) by {
                assert(s.drop_first()[i] == s[i + 1]);
            }
        }
    }
}

/// `len_ok_entries` holds exactly when every entry's value satisfies `len_ok`.
pub broadcast proof fn lemma_len_ok_entries(s: Seq<(String, BenStruct)>)
    ensures
        #[trigger] len_ok_entries(s) <==> (forall|i: int|
            0 <= i < s.len() ==> len_ok((#[trigger] s[i]).1)),
    decreases s,
{
    if s.len() > 0 {
        lemma_len_ok_entries(s.drop_first());
        if len_ok(s[0].1) && len_ok_entries(s.drop_first()) {
            assert forall|i: int| 0 <= i < s.len() implies len_ok((#[trigger] s[i]).1) by {
                if i > 0 {
                    assert(s.drop_first()[i - 1] == s[i]);
                }
            }
        }
        if forall|i: int| 0 <= i < s.len() ==> len_ok((#[trigger] s[i]).1) {
            assert forall|i: int| 0 <= i < s.drop_first().len() implies len_ok(
                (#[trigger] s.drop_first()[i]).1,
            ) by {
                assert(s.drop_first()[i] == s[i + 1]);
            }
        }
    }
}

/// Full invariant of a decoded value: lengths agree with contents and the
/// model is well formed.
pub open spec fn ben_inv(b: BenStruct) -> bool {
    len_ok(b) && wf(view_of(b))
}

/// Byte-wise equality of two byte slices.
pub fn bytes_eq(a: &[u8], b: &[u8]) -> (r: bool)
    ensures
        r == (a@ == b@),
{
    if a.len() != b.len() {
        return false;
    }
    let mut i: usize = 0;
    while i < a.len()
        invariant
            i <= a@.len(),
            a@.len() == b@.len(),
            forall|j: int| 0 <= j < i ==> a@[j] == b@[j],
        decreases a@.len() - i,
    {
        if a[i] != b[i] {
            return false;
        }
        i += 1;
    }
    proof {
        assert(a@ =~= b@);
    }
    true
}

/// Common prefixes do not affect the lexicographic comparison: it is decided
/// by the tails after any shared prefix.
proof fn lemma_bytes_lt_skip(a: Seq<u8>, b: Seq<u8>, i: int)
    requires
        0 <= i <= a.len(),
        i <= b.len(),
        forall|j: int| 0 <= j < i ==> a[j] == b[j],
    ensures
        bytes_lt(a, b) == bytes_lt(a.skip(i), b.skip(i)),
    decreases i,
{
    if i > 0 {
        assert(bytes_lt(a, b) == bytes_lt(a.drop_first(), b.drop_first()));
        assert forall|j: int| 0 <= j < i - 1 implies a.drop_first()[j] == b.drop_first()[j] by {
            assert(a.drop_first()[j] == a[j + 1]);
            assert(b.drop_first()[j] == b[j + 1]);
        }
        lemma_bytes_lt_skip(a.drop_first(), b.drop_first(), i - 1);
        assert(a.drop_first().skip(i - 1) =~= a.skip(i));
        assert(b.drop_first().skip(i - 1) =~= b.skip(i));
    } else {
        assert(a.skip(0) =~= a);
        assert(b.skip(0) =~= b);
    }
}

/// Byte-wise lexicographic comparison of two byte slices.
pub fn bytes_lt_exec(a: &[u8], b: &[u8]) -> (r: bool)
    ensures
        r == bytes_lt(a@, b@),
{
    let mut i: usize = 0;
    loop
        invariant
            i <= a@.len(),
            i <= b@.len(),
            forall|j: int| 0 <= j < i ==> a@[j] == b@[j],
        decreases a@.len() - i,
    {
        proof {
            lemma_bytes_lt_skip(a@, b@, i as int);
        }
        if i == b.len() {
            return false;
        }
        if i == a.len() {
            return true;
        }
        if a[i] != b[i] {
            return a[i] < b[i];
        }
        i += 1;
    }
}

/// `views_of` maps each element in place.
pub broadcast proof fn lemma_views_of(s: Seq<BenStruct>)
    ensures
        (#[trigger] views_of(s)).len() == s.len(),
        forall|i: int| 0 <= i < s.len() ==> views_of(s)[i] == view_of(s[i]),
    decreases s,
{
    if s.len() > 0 {
        lemma_views_of(s.drop_first());
        assert forall|i: int| 0 <= i < s.len() implies views_of(s)[i] == view_of(s[i]) by {
            if i > 0 {
                assert(s.drop_first()[i - 1] == s[i]);
            }
        }
    }
}

/// Strict lexicographic order on byte sequences: the order canonical bencode
/// requires of dictionary keys.
pub open spec fn bytes_lt(a: Seq<u8>, b: Seq<u8>) -> bool
    decreases a.len(),
{
    if b.len() == 0 {
        false
    } else if a.len() == 0 {
        true
    } else if a[0] != b[0] {
        a[0] < b[0]
    } else {
        bytes_lt(a.drop_first(), b.drop_first())
    }
}

/// Dictionary keys are ordered by the raw byte order of their UTF-8 encodings.
pub open spec fn key_lt(a: Seq<char>, b: Seq<char>) -> bool {
    bytes_lt(vstd::utf8::encode_utf8(a), vstd::utf8::encode_utf8(b))
}

/// The mathematical integer fits the executable integer field.
pub open spec fn int_fits(i: int) -> bool {
    isize::MIN as int <= i && i <= isize::MAX as int
}

/// Dictionary entries are strictly ascending in key byte order; in
/// particular, keys are unique.
pub open spec fn entries_sorted(es: Seq<(Seq<char>, BenValue)>) -> bool {
    forall|i: int, j: int| 0 <= i < j < es.len() ==> key_lt(es[i].0, es[j].0)
}

/// Well-formedness of a model value: integers fit the machine range, the
/// `Null` sentinel does not occur, and dictionary entries are kept strictly
/// sorted by raw key byte order.  Every decoded value is well formed, and the
/// canonical encoder is specified on well-formed values.
pub open spec fn wf(v: BenValue) -> bool
    decreases v,
{
    match v {
        BenValue::Int { i } => int_fits(i),
        BenValue::Bytes { bs } => true,
        BenValue::List { items } => wf_items(items),
        BenValue::Dict { entries } => wf_entries(entries) && entries_sorted(entries),
        BenValue::Null => false,
    }
}

/// All list elements are well formed.
pub open spec fn wf_items(items: Seq<BenValue>) -> bool
    decreases items,
{
    items.len() == 0 || (wf(items[0]) && wf_items(items.drop_first()))
}

/// All dictionary values are well formed.
pub open spec fn wf_entries(es: Seq<(Seq<char>, BenValue)>) -> bool
    decreases es,
{
    es.len() == 0 || (wf(es[0].1) && wf_entries(es.drop_first()))
}

/// `wf_items` holds exactly when every element is well formed.
pub broadcast proof fn lemma_wf_items(items: Seq<BenValue>)
    ensures
        #[trigger] wf_items(items) <==> (forall|i: int|
            0 <= i < items.len() ==> wf(#[trigger] items[i])),
    decreases items,
{
    if items.len() > 0 {
        lemma_wf_items(items.drop_first());
        if wf(items[0]) && wf_items(items.drop_first()) {
            assert forall|i: int| 0 <= i < items.len() implies wf(#[trigger] items[i]) by {
                if i > 0 {
                    assert(items.drop_first()[i - 1] == items[i]);
                }
            }
        }
        if forall|i: int| 0 <= i < items.len() ==> wf(#[trigger] items[i]) {
            assert forall|i: int| 0 <= i < items.drop_first().len() implies wf(
                #[trigger] items.drop_first()[i],
            ) by {
                assert(items.drop_first()[i] == items[i + 1]);
            }
        }
    }
}

/// `wf_entries` holds exactly when every entry's value is well formed.
pub broadcast proof fn lemma_wf_entries(es: Seq<(Seq<char>, BenValue)>)
    ensures
        #[trigger] wf_entries(es) <==> (forall|i: int|
            0 <= i < es.len() ==> wf((#[trigger] es[i]).1)),
    decreases es,
{
    if es.len() > 0 {
        lemma_wf_entries(es.drop_first());
        if wf(es[0].1) && wf_entries(es.drop_first()) {
            assert forall|i: int| 0 <= i < es.len() implies wf((#[trigger] es[i]).1) by {
                if i > 0 {
                    assert(es.drop_first()[i - 1] == es[i]);
                }
            }
        }
        if forall|i: int| 0 <= i < es.len() ==> wf((#[trigger] es[i]).1) {
            assert forall|i: int| 0 <= i < es.drop_first().len() implies wf(
                (#[trigger] es.drop_first()[i]).1,
            ) by {
                assert(es.drop_first()[i] == es[i + 1]);
            }
        }
    }
}

/// Nesting depth of a value: how many recursion levels a decoder needs to
/// rebuild it.  Atoms have depth 1; a container is one deeper than its
/// deepest child (dictionary keys are flat and add nothing).
pub open spec fn depth_of(v: BenValue) -> nat
    decreases v,
{
    match v {
        BenValue::Int { i } => 1,
        BenValue::Bytes { bs } => 1,
        BenValue::List { items } => 1 + depth_items(items),
        BenValue::Dict { entries } => 1 + depth_entries(entries),
        BenValue::Null => 1,
    }
}

/// Depth of the deepest element of a list body (0 when empty).
pub open spec fn depth_items(items: Seq<BenValue>) -> nat
    decreases items,
{
    if items.len() == 0 {
        0
    } else if depth_of(items[0]) >= depth_items(items.drop_first()) {
        depth_of(items[0])
    } else {
        depth_items(items.drop_first())
    }
}

/// Depth of the deepest value of a dictionary body (0 when empty).
pub open spec fn depth_entries(es: Seq<(Seq<char>, BenValue)>) -> nat
    decreases es,
{
    if es.len() == 0 {
        0
    } else if depth_of(es[0].1) >= depth_entries(es.drop_first()) {
        depth_of(es[0].1)
    } else {
        depth_entries(es.drop_first())
    }
}

/// The value stored under key `k`, if any.  With sorted entries the first
/// match is the only one.
pub open spec fn dict_get(es: Seq<(Seq<char>, BenValue)>, k: Seq<char>) -> Option<BenValue>
    decreases es,
{
    if es.len() == 0 {
        Option::None
    } else if es[0].0 == k {
        Option::Some(es[0].1)
    } else {
        dict_get(es.drop_first(), k)
    }
}

/// Insert `(k, v)` into a key-sorted entry sequence, replacing the entry with
/// an equal key if one exists.  This is the decoder's duplicate policy: a
/// later binding for the same key wins.
pub open spec fn dict_put(
    es: Seq<(Seq<char>, BenValue)>,
    k: Seq<char>,
    v: BenValue,
) -> Seq<(Seq<char>, BenValue)>
    decreases es,
{
    if es.len() == 0 {
        seq![(k, v)]
    } else if key_lt(k, es[0].0) {
        seq![(k, v)] + es
    } else if k == es[0].0 {
        seq![(k, v)] + es.drop_first()
    } else {
        seq![es[0]] + dict_put(es.drop_first(), k, v)
    }
}

/// `entry_views_of` maps each entry in place.
pub broadcast proof fn lemma_entry_views_of(s: Seq<(String, BenStruct)>)
    ensures
        (#[trigger] entry_views_of(s)).len() == s.len(),
        forall|i: int|
            0 <= i < s.len() ==> entry_views_of(s)[i] == (s[i].0@, view_of(s[i].1)),
    decreases s,
{
    if s.len() > 0 {
        lemma_entry_views_of(s.drop_first());
        assert forall|i: int|
            0 <= i < s.len() implies entry_views_of(s)[i] == (s[i].0@, view_of(s[i].1)) by {
            if i > 0 {
                assert(s.drop_first()[i - 1] == s[i]);
            }
        }
    }
}

/// Byte-for-byte copy of a byte vector.
pub fn copy_bytes(v: &Vec<u8>) -> (r: Vec<u8>)
    ensures
        r@ == v@,
{
    let mut out: Vec<u8> = Vec::new();
    let mut i: usize = 0;
    while i < v.len()
        invariant
            i <= v@.len(),
            out@ == v@.subrange(0, i as int),
        decreases v@.len() - i,
    {
        out.push(v[i]);
        proof {
            assert(out@ =~= v@.subrange(0, i as int + 1));
        }
        i += 1;
    }
    proof {
        assert(out@ =~= v@);
    }
    out
}

/// Typed access to the content of a value, with preconditions in place of
/// run-time type errors: each accessor may only be asked of the variant
/// that carries its kind of content.
pub trait GetData {
    /// Whether `get_string` applies: the value is a byte string holding
    /// valid UTF-8 text.
    spec fn has_text(&self) -> bool;

    /// The text content, as characters.
    spec fn text(&self) -> Seq<char>;

    /// Whether `get_isize` applies: the value is an integer.
    spec fn has_int(&self) -> bool;

    /// The integer content.
    spec fn int_value(&self) -> int;

    /// The text of a byte-string value.
    fn get_string(&self) -> (r: String)
        requires
            self.has_text(),
        ensures
            r@ == self.text(),
    ;

    /// The integer of an integer value.
    fn get_isize(&self) -> (r: isize)
        requires
            self.has_int(),
        ensures
            r as int == self.int_value(),
    ;
}

impl GetData for BenStruct {
    open spec fn has_text(&self) -> bool {
        self matches BenStruct::Byte { data, .. } && vstd::utf8::valid_utf8(data@)
    }

    open spec fn text(&self) -> Seq<char> {
        match self {
            BenStruct::Byte { data, .. } => vstd::utf8::decode_utf8(data@),
            _ => Seq::empty(),
        }
    }

    open spec fn has_int(&self) -> bool {
        self is Int
    }

    open spec fn int_value(&self) -> int {
        match self {
            BenStruct::Int { data } => *data as int,
            _ => 0,
        }
    }

    fn get_string(&self) -> (r: String) {
        match self {
            BenStruct::Byte { data, .. } => {
                match crate::text::utf8_to_string(data) {
                    Option::Some(s) => s,
                    Option::None => unreached(),
                }
            },
            _ => unreached(),
        }
    }

    fn get_isize(&self) -> (r: isize) {
        match self {
            BenStruct::Int { data } => *data,
            _ => unreached(),
        }
    }
}

impl BenStruct {
    /// Deep copy with the same model; length invariants carry over.
    pub fn duplicate(&self) -> (r: BenStruct)
        ensures
            view_of(r) == view_of(*self),
            len_ok(*self) ==> len_ok(r),
    {
        dup_ben(self)
    }
}

impl Clone for BenStruct {
    /// A clone is a deep copy with the same model.
    fn clone(&self) -> (r: BenStruct)
        ensures
            view_of(r) == view_of(*self),
            len_ok(*self) ==> len_ok(r),
    {
        dup_ben(self)
    }
}

/// Deep copy of a value: same model, length invariants carry over.
fn dup_ben(b: &BenStruct) -> (r: BenStruct)
    ensures
        view_of(r) == view_of(*b),
        len_ok(*b) ==> len_ok(r),
    decreases *b,
{
    match b {
        BenStruct::Int { data } => BenStruct::Int { data: *data },
        BenStruct::Byte { length, data } => BenStruct::Byte {
            length: *length,
            data: copy_bytes(data),
        },
        BenStruct::List { data: xs } => {
            let mut out: Vec<BenStruct> = Vec::new();
            let mut i: usize = 0;
            while i < xs.len()
                invariant
                    i <= xs@.len(),
                    out@.len() == i,
                    *b == (BenStruct::List { data: *xs }),
                    forall|j: int|
                        0 <= j < i ==> view_of(out@[j]) == view_of(xs@[j]) && (len_ok(
                            xs@[j],
                        ) ==> len_ok(out@[j])),
                decreases xs@.len() - i,
            {
                proof {
                    assert(view_of(*b) == (BenValue::List { items: views_of(xs@) }));
                }
                let d = dup_ben(&xs[i]);
                out.push(d);
                i += 1;
            }
            proof {
                lemma_views_of(out@);
                lemma_views_of(xs@);
                assert(views_of(out@) =~= views_of(xs@));
                lemma_len_ok_items(out@);
                lemma_len_ok_items(xs@);
            }
            BenStruct::List { data: out }
        },
        BenStruct::Dict { data: xs } => {
            let mut out: Vec<(String, BenStruct)> = Vec::new();
            let mut i: usize = 0;
            while i < xs.len()
                invariant
                    i <= xs@.len(),
                    out@.len() == i,
                    *b == (BenStruct::Dict { data: *xs }),
                    forall|j: int|
                        0 <= j < i ==> out@[j].0@ == xs@[j].0@ && view_of(out@[j].1)
                            == view_of(xs@[j].1) && (len_ok(xs@[j].1) ==> len_ok(
                            out@[j].1,
                        )),
                decreases xs@.len() - i,
            {
                proof {
                    assert(view_of(*b) == (BenValue::Dict { entries: entry_views_of(xs@) }));
                }
                let k = xs[i].0.clone();
                let v = dup_ben(&xs[i].1);
                out.push((k, v));
                i += 1;
            }
            proof {
                lemma_entry_views_of(out@);
                lemma_entry_views_of(xs@);
                assert(entry_views_of(out@) =~= entry_views_of(xs@));
                lemma_len_ok_entries(out@);
                lemma_len_ok_entries(xs@);
            }
            BenStruct::Dict { data: out }
        },
        BenStruct::Null => BenStruct::Null,
    }
}

/// The byte order is total: for any two byte sequences exactly one of
/// `a < b`, `a == b`, `b < a` holds.
pub proof fn lemma_bytes_lt_total(a: Seq<u8>, b: Seq<u8>)
    ensures
        bytes_lt(a, b) || bytes_lt(b, a) || a == b,
        !(bytes_lt(a, b) && bytes_lt(b, a)),
        bytes_lt(a, b) ==> a != b,
    decreases a.len(),
{
    if b.len() == 0 {
        if a.len() == 0 {
            assert(a =~= b);
        }
    } else if a.len() == 0 {
    } else if a[0] == b[0] {
        lemma_bytes_lt_total(a.drop_first(), b.drop_first());
        if a.drop_first() == b.drop_first() {
            assert forall|i: int| 0 <= i < a.len() implies a[i] == b[i] by {
                if i > 0 {
                    assert(a.drop_first()[i - 1] == a[i]);
                    assert(b.drop_first()[i - 1] == b[i]);
                }
            }
            assert(a =~= b);
        }
        if a == b {
            assert(a.drop_first() =~= b.drop_first());
        }
    } else {
        if a == b {
            assert(a[0] == b[0]);
        }
    }
}

/// The key order is total, through the injectivity of UTF-8 encoding.
pub proof fn lemma_key_lt_total(a: Seq<char>, b: Seq<char>)
    ensures
        key_lt(a, b) || key_lt(b, a) || a == b,
        !(key_lt(a, b) && key_lt(b, a)),
        key_lt(a, b) ==> a != b,
{
    let ea = vstd::utf8::encode_utf8(a);
    let eb = vstd::utf8::encode_utf8(b);
    lemma_bytes_lt_total(ea, eb);
    if ea == eb {
        vstd::utf8::encode_utf8_decode_utf8(a);
        vstd::utf8::encode_utf8_decode_utf8(b);
        assert(a == b);
    }
}

/// Keys of the result of `dict_put`: the inserted key, or a key of the
/// input with its value.
pub open spec fn put_covered(
    es: Seq<(Seq<char>, BenValue)>,
    k: Seq<char>,
    v: BenValue,
    e: (Seq<char>, BenValue),
) -> bool {
    e == (k, v) || exists|l: int| 0 <= l < es.len() && es[l] == e
}

/// `dict_put` on a sorted, well-formed body yields a sorted, well-formed
/// body; every entry of the result is the inserted pair or one of the input.
pub proof fn lemma_dict_put_sorted(es: Seq<(Seq<char>, BenValue)>, k: Seq<char>, v: BenValue)
    requires
        entries_sorted(es),
        wf_entries(es),
        wf(v),
    ensures
        entries_sorted(dict_put(es, k, v)),
        wf_entries(dict_put(es, k, v)),
        forall|j: int|
            0 <= j < dict_put(es, k, v).len() ==> put_covered(es, k, v, #[trigger] dict_put(
                es,
                k,
                v,
            )[j]),
    decreases es,
{
    broadcast use lemma_wf_entries;

    let res = dict_put(es, k, v);
    if es.len() == 0 {
        assert(res =~= seq![(k, v)]);
        assert(res[0] == (k, v));
    } else if key_lt(k, es[0].0) {
        assert(res =~= seq![(k, v)] + es);
        assert forall|i: int, j: int| 0 <= i < j < res.len() implies key_lt(
            res[i].0,
            res[j].0,
        ) by {
            if i == 0 {
                if j == 1 {
                    assert(res[j] == es[0]);
                } else {
                    assert(res[j] == es[j - 1]);
                    assert(key_lt(es[0].0, es[j - 1].0));
                    lemma_key_lt_trans(k, es[0].0, es[j - 1].0);
                }
            } else {
                assert(res[i] == es[i - 1]);
                assert(res[j] == es[j - 1]);
            }
        }
        assert forall|j: int| 0 <= j < res.len() implies wf((#[trigger] res[j]).1) by {
            if j > 0 {
                assert(res[j] == es[j - 1]);
            }
        }
        assert forall|j: int| 0 <= j < res.len() implies put_covered(es, k, v, res[j]) by {
            if j > 0 {
                assert(es[j - 1] == res[j]);
            }
        }
    } else if k == es[0].0 {
        assert(res =~= seq![(k, v)] + es.drop_first());
        assert forall|i: int, j: int| 0 <= i < j < res.len() implies key_lt(
            res[i].0,
            res[j].0,
        ) by {
            if i == 0 {
                assert(res[j] == es[j]);
                assert(key_lt(es[0].0, es[j].0));
            } else {
                assert(res[i] == es[i]);
                assert(res[j] == es[j]);
            }
        }
        assert forall|j: int| 0 <= j < res.len() implies wf((#[trigger] res[j]).1) by {
            if j > 0 {
                assert(res[j] == es[j]);
            }
        }
        assert forall|j: int| 0 <= j < res.len() implies put_covered(es, k, v, res[j]) by {
            if j > 0 {
                assert(es[j] == res[j]);
            }
        }
    } else {
        lemma_key_lt_total(k, es[0].0);
        assert(key_lt(es[0].0, k));
        assert forall|i: int, j: int| 0 <= i < j < es.drop_first().len() implies key_lt(
            (#[trigger] es.drop_first()[i]).0,
            (#[trigger] es.drop_first()[j]).0,
        ) by {
            assert(es.drop_first()[i] == es[i + 1]);
            assert(es.drop_first()[j] == es[j + 1]);
        }
        lemma_dict_put_sorted(es.drop_first(), k, v);
        let sub = dict_put(es.drop_first(), k, v);
        assert(res =~= seq![es[0]] + sub);
        assert forall|i: int, j: int| 0 <= i < j < res.len() implies key_lt(
            res[i].0,
            res[j].0,
        ) by {
            if i == 0 {
                assert(res[j] == sub[j - 1]);
                assert(put_covered(es.drop_first(), k, v, sub[j - 1]));
                if sub[j - 1] == (k, v) {
                    assert(key_lt(es[0].0, k));
                } else {
                    let l = choose|l: int|
                        0 <= l < es.drop_first().len() && es.drop_first()[l] == sub[j - 1];
                    assert(es.drop_first()[l] == es[l + 1]);
                    assert(key_lt(es[0].0, es[l + 1].0));
                }
            } else {
                assert(res[i] == sub[i - 1]);
                assert(res[j] == sub[j - 1]);
            }
        }
        assert forall|j: int| 0 <= j < res.len() implies wf((#[trigger] res[j]).1) by {
            if j > 0 {
                assert(res[j] == sub[j - 1]);
            }
        }
        assert forall|j: int| 0 <= j < res.len() implies put_covered(es, k, v, res[j]) by {
            if j > 0 {
                assert(put_covered(es.drop_first(), k, v, sub[j - 1]));
                if sub[j - 1] != (k, v) {
                    let l = choose|l: int|
                        0 <= l < es.drop_first().len() && es.drop_first()[l] == sub[j - 1];
                    assert(es[l + 1] == sub[j - 1]);
                }
            }
        }
    }
}

/// The key order is transitive.
pub proof fn lemma_key_lt_trans(a: Seq<char>, b: Seq<char>, c: Seq<char>)
    requires
        key_lt(a, b),
        key_lt(b, c),
    ensures
        key_lt(a, c),
{
    lemma_bytes_lt_trans(
        vstd::utf8::encode_utf8(a),
        vstd::utf8::encode_utf8(b),
        vstd::utf8::encode_utf8(c),
    );
}

/// The byte order is transitive.
pub proof fn lemma_bytes_lt_trans(a: Seq<u8>, b: Seq<u8>, c: Seq<u8>)
    requires
        bytes_lt(a, b),
        bytes_lt(b, c),
    ensures
        bytes_lt(a, c),
    decreases a.len(),
{
    if c.len() == 0 {
    } else if a.len() == 0 {
    } else {
        if b.len() == 0 {
        } else {
            if a[0] == b[0] && b[0] == c[0] {
                lemma_bytes_lt_trans(a.drop_first(), b.drop_first(), c.drop_first());
            }
        }
    }
}

/// Appending an element appends its model.
pub proof fn lemma_views_of_push(s: Seq<BenStruct>, b: BenStruct)
    ensures
        views_of(s.push(b)) == views_of(s).push(view_of(b)),
{
    lemma_views_of(s);
    lemma_views_of(s.push(b));
    assert forall|i: int| 0 <= i < s.len() + 1 implies views_of(s.push(b))[i] == views_of(
        s,
    ).push(view_of(b))[i] by {
        assert(views_of(s.push(b))[i] == view_of(s.push(b)[i]));
        if i < s.len() {
            assert(s.push(b)[i] == s[i]);
        }
    }
    assert(views_of(s.push(b)) =~= views_of(s).push(view_of(b)));
}

/// `dict_put` passes over a prefix of entries whose keys are below the
/// inserted key.
pub proof fn lemma_dict_put_skip(es: Seq<(Seq<char>, BenValue)>, k: Seq<char>, v: BenValue, i: int)
    requires
        0 <= i <= es.len(),
        forall|j: int| 0 <= j < i ==> key_lt((#[trigger] es[j]).0, k),
    ensures
        dict_put(es, k, v) == es.subrange(0, i) + dict_put(es.subrange(i, es.len() as int), k, v),
    decreases i,
{
    if i == 0 {
        assert(es.subrange(0, es.len() as int) =~= es);
        assert(es.subrange(0, 0) =~= Seq::<(Seq<char>, BenValue)>::empty());
        assert(es.subrange(0, 0) + dict_put(es, k, v) =~= dict_put(es, k, v));
    } else {
        lemma_key_lt_total(k, es[0].0);
        assert(key_lt(es[0].0, k));
        let dr = es.drop_first();
        assert forall|j: int| 0 <= j < i - 1 implies key_lt((#[trigger] dr[j]).0, k) by {
            assert(dr[j] == es[j + 1]);
        }
        lemma_dict_put_skip(dr, k, v, i - 1);
        assert(dict_put(es, k, v) == seq![es[0]] + dict_put(dr, k, v));
        assert(dr.subrange(0, i - 1) =~= es.subrange(1, i));
        assert(dr.subrange(i - 1, dr.len() as int) =~= es.subrange(i, es.len() as int));
        assert(seq![es[0]] + (es.subrange(1, i) + dict_put(
            es.subrange(i, es.len() as int),
            k,
            v,
        )) =~= es.subrange(0, i) + dict_put(es.subrange(i, es.len() as int), k, v));
    }
}

/// Law: a dictionary insertion is a map update.  Looking the inserted key
/// up finds the new value, and every other key is bound as before: this is
/// the decoder's last-write-wins duplicate policy, stated over lookups.
pub proof fn lemma_dict_put_get(
    es: Seq<(Seq<char>, BenValue)>,
    k: Seq<char>,
    v: BenValue,
    k2: Seq<char>,
)
    ensures
        dict_get(dict_put(es, k, v), k) == Some(v),
        k2 != k ==> dict_get(dict_put(es, k, v), k2) == dict_get(es, k2),
    decreases es,
{
    let res = dict_put(es, k, v);
    if es.len() == 0 {
        assert(res == seq![(k, v)]);
        assert(res.drop_first() =~= Seq::<(Seq<char>, BenValue)>::empty());
    } else if key_lt(k, es[0].0) {
        assert(res == seq![(k, v)] + es);
        assert(res[0] == (k, v));
        assert(res.drop_first() =~= es);
    } else if k == es[0].0 {
        assert(res == seq![(k, v)] + es.drop_first());
        assert(res[0] == (k, v));
        assert(res.drop_first() =~= es.drop_first());
    } else {
        lemma_key_lt_total(k, es[0].0);
        assert(key_lt(es[0].0, k));
        assert(es[0].0 != k);
        lemma_dict_put_get(es.drop_first(), k, v, k2);
        assert(res == seq![es[0]] + dict_put(es.drop_first(), k, v));
        assert(res[0] == es[0]);
        assert(res.drop_first() =~= dict_put(es.drop_first(), k, v));
        assert(dict_get(res, k) == Some(v));
        if k2 != k {
            if k2 == es[0].0 {
                assert(dict_get(res, k2) == Some(es[0].1));
                assert(dict_get(es, k2) == Some(es[0].1));
            } else {
                assert(dict_get(res, k2) == dict_get(dict_put(es.drop_first(), k, v), k2));
                assert(dict_get(es, k2) == dict_get(es.drop_first(), k2));
            }
        }
    }
}

} // verus!
