//! From fields to values and back: what each kind of message field is on
//! the wire, and how it is read from a list of fields.
//!
//! A field of a message is sent as zero or more wire fields with its number.
//! On reading, a singular field takes the last value sent with its number
//! (the default when none is), a repeated field takes all of them in order,
//! and a field sent with a wire type other than its own makes the message
//! unreadable. Fields with unknown numbers are skipped.

use vstd::prelude::*;
use vstd::utf8::*;
use crate::wire::{
    decode_varint_at, field_bytes, fields_bytes, fields_view, lemma_fields_bytes_concat,
    lemma_fields_bytes_single, lemma_read_varint, lemma_varint_len, put_bytes_field,
    put_varint, put_varint_field, read_varint, tags_ok, varint, DecodeError, Field, SpecField, SpecValue,
    WireValue,
};

verus! {

broadcast use {encode_utf8_valid_utf8, encode_utf8_decode_utf8};

/// The payloads sent with field number `tag`, in order.
pub open spec fn tag_values(fs: Seq<SpecField>, tag: u32) -> Seq<SpecValue>
    decreases fs.len(),
{
    if fs.len() == 0 {
        Seq::empty()
    } else {
        let rest = tag_values(fs.drop_first(), tag);
        if fs[0].tag == tag {
            seq![fs[0].value] + rest
        } else {
            rest
        }
    }
}

/// The payloads of two lists of fields, one after the other.
pub broadcast proof fn lemma_tag_values_concat(a: Seq<SpecField>, b: Seq<SpecField>, tag: u32)
    ensures
        #[trigger] tag_values(a + b, tag) == tag_values(a, tag) + tag_values(b, tag),
    decreases a.len(),
{
    if a.len() == 0 {
        assert(a + b =~= b);
        assert(tag_values(a, tag) + tag_values(b, tag) =~= tag_values(b, tag));
    } else {
        assert((a + b).drop_first() =~= a.drop_first() + b);
        lemma_tag_values_concat(a.drop_first(), b, tag);
        if a[0].tag == tag {
            assert(seq![a[0].value] + (tag_values(a.drop_first(), tag) + tag_values(b, tag))
                =~= (seq![a[0].value] + tag_values(a.drop_first(), tag)) + tag_values(b, tag));
        }
    }
}

/// The payloads of a single field.
pub broadcast proof fn lemma_tag_values_single(f: SpecField, tag: u32)
    ensures
        #[trigger] tag_values(seq![f], tag) == (if f.tag == tag {
            seq![f.value]
        } else {
            Seq::<SpecValue>::empty()
        }),
{
    let e = seq![f].drop_first();
    assert(e =~= Seq::<SpecField>::empty());
    assert(tag_values(e, tag) == Seq::<SpecValue>::empty());
    assert(seq![f.value] + Seq::<SpecValue>::empty() =~= seq![f.value]);
}

/// No payloads in no fields.
pub broadcast proof fn lemma_tag_values_empty(tag: u32)
    ensures
        #[trigger] tag_values(Seq::<SpecField>::empty(), tag) == Seq::<SpecValue>::empty(),
{
}

/// A length-delimited payload, as its bytes.
pub open spec fn bytes_of(v: SpecValue) -> Option<Seq<Seq<u8>>> {
    match v {
        SpecValue::Bytes(b) => Some(seq![b]),
        _ => None,
    }
}

/// A varint payload, as its value.
pub open spec fn varint_of(v: SpecValue) -> Option<Seq<u64>> {
    match v {
        SpecValue::Varint(x) => Some(seq![x]),
        _ => None,
    }
}

/// The bytes of packed varints, one after the other.
pub open spec fn packed_bytes(vs: Seq<u64>) -> Seq<u8>
    decreases vs.len(),
{
    if vs.len() == 0 {
        Seq::empty()
    } else {
        varint(vs[0] as nat) + packed_bytes(vs.drop_first())
    }
}

/// Reads varints until the input ends.
pub open spec fn parse_packed(b: Seq<u8>) -> Option<Seq<u64>>
    decreases b.len(),
{
    if b.len() == 0 {
        Some(Seq::empty())
    } else {
        match read_varint(b) {
            Some((v, n)) => if 0 < n <= b.len() {
                match parse_packed(b.skip(n as int)) {
                    Some(r) => Some(seq![v] + r),
                    None => None,
                }
            } else {
                None
            },
            None => None,
        }
    }
}

/// A payload of a packed repeated scalar: either one varint, or a
/// length-delimited run of them.
pub open spec fn packed_of(v: SpecValue) -> Option<Seq<u64>> {
    match v {
        SpecValue::Varint(x) => Some(seq![x]),
        SpecValue::Bytes(b) => parse_packed(b),
        _ => None,
    }
}

/// Both parts read, one after the other.
pub open spec fn opt_concat<T>(a: Option<Seq<T>>, b: Option<Seq<T>>) -> Option<Seq<T>> {
    match a {
        Some(x) => match b {
            Some(y) => Some(x + y),
            None => None,
        },
        None => None,
    }
}

/// The byte strings of the payloads; none if one is not length-delimited.
pub open spec fn collect_bytes(vals: Seq<SpecValue>) -> Option<Seq<Seq<u8>>>
    decreases vals.len(),
{
    if vals.len() == 0 {
        Some(Seq::empty())
    } else {
        match bytes_of(vals[0]) {
            Some(x) => match collect_bytes(vals.drop_first()) {
                Some(r) => Some(x + r),
                None => None,
            },
            None => None,
        }
    }
}

/// Collecting over two lists, one after the other.
pub broadcast proof fn lemma_collect_bytes_concat(a: Seq<SpecValue>, b: Seq<SpecValue>)
    ensures
        #[trigger] collect_bytes(a + b) == opt_concat(collect_bytes(a), collect_bytes(b)),
    decreases a.len(),
{
    if a.len() == 0 {
        assert(a + b =~= b);
        match collect_bytes(b) {
            Some(y) => { assert(Seq::<Seq<u8>>::empty() + y =~= y); },
            None => {},
        }
    } else {
        assert((a + b).drop_first() =~= a.drop_first() + b);
        lemma_collect_bytes_concat(a.drop_first(), b);
        match bytes_of(a[0]) {
            Some(x) => {
                match collect_bytes(a.drop_first()) {
                    Some(r) => match collect_bytes(b) {
                        Some(y) => { assert(x + (r + y) =~= (x + r) + y); },
                        None => {},
                    },
                    None => {},
                }
            },
            None => {},
        }
    }
}

/// Collecting over a single payload.
pub broadcast proof fn lemma_collect_bytes_single(v: SpecValue)
    ensures
        #[trigger] collect_bytes(seq![v]) == bytes_of(v),
{
    let e = seq![v].drop_first();
    assert(e =~= Seq::<SpecValue>::empty());
    assert(collect_bytes(e) == Some(Seq::<Seq<u8>>::empty()));
    match bytes_of(v) {
        Some(x) => { assert(x + Seq::<Seq<u8>>::empty() =~= x); },
        None => {},
    }
}

/// Collecting over nothing.
pub broadcast proof fn lemma_collect_bytes_empty()
    ensures
        #[trigger] collect_bytes(Seq::<SpecValue>::empty()) == Some(Seq::<Seq<u8>>::empty()),
{
}

/// The values of the payloads; none if one is not a varint.
pub open spec fn collect_varints(vals: Seq<SpecValue>) -> Option<Seq<u64>>
    decreases vals.len(),
{
    if vals.len() == 0 {
        Some(Seq::empty())
    } else {
        match varint_of(vals[0]) {
            Some(x) => match collect_varints(vals.drop_first()) {
                Some(r) => Some(x + r),
                None => None,
            },
            None => None,
        }
    }
}

/// Collecting over two lists, one after the other.
pub broadcast proof fn lemma_collect_varints_concat(a: Seq<SpecValue>, b: Seq<SpecValue>)
    ensures
        #[trigger] collect_varints(a + b) == opt_concat(collect_varints(a), collect_varints(b)),
    decreases a.len(),
{
    if a.len() == 0 {
        assert(a + b =~= b);
        match collect_varints(b) {
            Some(y) => { assert(Seq::<u64>::empty() + y =~= y); },
            None => {},
        }
    } else {
        assert((a + b).drop_first() =~= a.drop_first() + b);
        lemma_collect_varints_concat(a.drop_first(), b);
        match varint_of(a[0]) {
            Some(x) => {
                match collect_varints(a.drop_first()) {
                    Some(r) => match collect_varints(b) {
                        Some(y) => { assert(x + (r + y) =~= (x + r) + y); },
                        None => {},
                    },
                    None => {},
                }
            },
            None => {},
        }
    }
}

/// Collecting over a single payload.
pub broadcast proof fn lemma_collect_varints_single(v: SpecValue)
    ensures
        #[trigger] collect_varints(seq![v]) == varint_of(v),
{
    let e = seq![v].drop_first();
    assert(e =~= Seq::<SpecValue>::empty());
    assert(collect_varints(e) == Some(Seq::<u64>::empty()));
    match varint_of(v) {
        Some(x) => { assert(x + Seq::<u64>::empty() =~= x); },
        None => {},
    }
}

/// Collecting over nothing.
pub broadcast proof fn lemma_collect_varints_empty()
    ensures
        #[trigger] collect_varints(Seq::<SpecValue>::empty()) == Some(Seq::<u64>::empty()),
{
}

/// The values of packed payloads, in order; none if one is malformed.
pub open spec fn collect_packed(vals: Seq<SpecValue>) -> Option<Seq<u64>>
    decreases vals.len(),
{
    if vals.len() == 0 {
        Some(Seq::empty())
    } else {
        match packed_of(vals[0]) {
            Some(x) => match collect_packed(vals.drop_first()) {
                Some(r) => Some(x + r),
                None => None,
            },
            None => None,
        }
    }
}

/// Collecting over two lists, one after the other.
pub broadcast proof fn lemma_collect_packed_concat(a: Seq<SpecValue>, b: Seq<SpecValue>)
    ensures
        #[trigger] collect_packed(a + b) == opt_concat(collect_packed(a), collect_packed(b)),
    decreases a.len(),
{
    if a.len() == 0 {
        assert(a + b =~= b);
        match collect_packed(b) {
            Some(y) => { assert(Seq::<u64>::empty() + y =~= y); },
            None => {},
        }
    } else {
        assert((a + b).drop_first() =~= a.drop_first() + b);
        lemma_collect_packed_concat(a.drop_first(), b);
        match packed_of(a[0]) {
            Some(x) => {
                match collect_packed(a.drop_first()) {
                    Some(r) => match collect_packed(b) {
                        Some(y) => { assert(x + (r + y) =~= (x + r) + y); },
                        None => {},
                    },
                    None => {},
                }
            },
            None => {},
        }
    }
}

/// Collecting over a single payload.
pub broadcast proof fn lemma_collect_packed_single(v: SpecValue)
    ensures
        #[trigger] collect_packed(seq![v]) == packed_of(v),
{
    let e = seq![v].drop_first();
    assert(e =~= Seq::<SpecValue>::empty());
    assert(collect_packed(e) == Some(Seq::<u64>::empty()));
    match packed_of(v) {
        Some(x) => { assert(x + Seq::<u64>::empty() =~= x); },
        None => {},
    }
}

/// Collecting over nothing.
pub broadcast proof fn lemma_collect_packed_empty()
    ensures
        #[trigger] collect_packed(Seq::<SpecValue>::empty()) == Some(Seq::<u64>::empty()),
{
}

/// The last element, or `d` when there is none.
pub open spec fn last_or<T>(s: Seq<T>, d: T) -> T {
    if s.len() == 0 {
        d
    } else {
        s.last()
    }
}

/// The last element, if any.
pub open spec fn last_opt<T>(s: Seq<T>) -> Option<T> {
    if s.len() == 0 {
        None
    } else {
        Some(s.last())
    }
}

/// A singular bytes field: the last value, or empty.
pub open spec fn get_bytes_spec(fs: Seq<SpecField>, tag: u32) -> Option<Seq<u8>> {
    match collect_bytes(tag_values(fs, tag)) {
        Some(s) => Some(last_or(s, Seq::empty())),
        None => None,
    }
}

/// A singular text field: the last value, or empty; it must be UTF-8.
pub open spec fn get_string_spec(fs: Seq<SpecField>, tag: u32) -> Option<Seq<char>> {
    match get_bytes_spec(fs, tag) {
        Some(b) => if valid_utf8(b) {
            Some(decode_utf8(b))
        } else {
            None
        },
        None => None,
    }
}

/// A singular varint field: the last value, or zero.
pub open spec fn get_varint_spec(fs: Seq<SpecField>, tag: u32) -> Option<u64> {
    match collect_varints(tag_values(fs, tag)) {
        Some(s) => Some(last_or(s, 0u64)),
        None => None,
    }
}

/// A repeated bytes field: every value, in order.
pub open spec fn get_rep_bytes_spec(fs: Seq<SpecField>, tag: u32) -> Option<Seq<Seq<u8>>> {
    collect_bytes(tag_values(fs, tag))
}

/// A packed repeated scalar field: every value, in order.
pub open spec fn get_packed_spec(fs: Seq<SpecField>, tag: u32) -> Option<Seq<u64>> {
    collect_packed(tag_values(fs, tag))
}

/// An optional bytes field: the last value, if any was sent.
pub open spec fn get_opt_bytes_spec(fs: Seq<SpecField>, tag: u32) -> Option<Option<Seq<u8>>> {
    match collect_bytes(tag_values(fs, tag)) {
        Some(s) => Some(last_opt(s)),
        None => None,
    }
}

/// An optional text field: the last value, if any was sent; it must be UTF-8.
pub open spec fn get_opt_string_spec(fs: Seq<SpecField>, tag: u32) -> Option<Option<Seq<char>>> {
    match get_opt_bytes_spec(fs, tag) {
        Some(Some(b)) => if valid_utf8(b) {
            Some(Some(decode_utf8(b)))
        } else {
            None
        },
        Some(None) => Some(None),
        None => None,
    }
}

/// An optional varint field: the last value, if any was sent.
pub open spec fn get_opt_varint_spec(fs: Seq<SpecField>, tag: u32) -> Option<Option<u64>> {
    match collect_varints(tag_values(fs, tag)) {
        Some(s) => Some(last_opt(s)),
        None => None,
    }
}

/// A bytes field as sent: nothing when it is empty.
pub open spec fn seg_bytes(tag: u32, b: Seq<u8>) -> Seq<SpecField> {
    if b.len() == 0 {
        Seq::empty()
    } else {
        seq![SpecField { tag, value: SpecValue::Bytes(b) }]
    }
}

/// A varint field as sent: nothing when it is zero.
pub open spec fn seg_varint(tag: u32, v: u64) -> Seq<SpecField> {
    if v == 0 {
        Seq::empty()
    } else {
        seq![SpecField { tag, value: SpecValue::Varint(v) }]
    }
}

/// A repeated bytes field as sent: one field per value.
pub open spec fn seg_rep_bytes(tag: u32, bs: Seq<Seq<u8>>) -> Seq<SpecField> {
    Seq::new(bs.len(), |i: int| SpecField { tag, value: SpecValue::Bytes(bs[i]) })
}

/// An optional bytes field as sent: present whenever it is set.
pub open spec fn seg_opt_bytes(tag: u32, o: Option<Seq<u8>>) -> Seq<SpecField> {
    match o {
        Some(b) => seq![SpecField { tag, value: SpecValue::Bytes(b) }],
        None => Seq::empty(),
    }
}

/// An optional varint field as sent: present whenever it is set.
pub open spec fn seg_opt_varint(tag: u32, o: Option<u64>) -> Seq<SpecField> {
    match o {
        Some(v) => seq![SpecField { tag, value: SpecValue::Varint(v) }],
        None => Seq::empty(),
    }
}

/// A packed repeated scalar field as sent: one length-delimited field, or
/// nothing when there are no values.
pub open spec fn seg_packed(tag: u32, vs: Seq<u64>) -> Seq<SpecField> {
    if vs.len() == 0 {
        Seq::empty()
    } else {
        seq![SpecField { tag, value: SpecValue::Bytes(packed_bytes(vs)) }]
    }
}

/// Adding nothing on either side.
pub broadcast proof fn lemma_add_empty<T>(s: Seq<T>)
    ensures
        #[trigger] (Seq::<T>::empty() + s) == s,
        #[trigger] (s + Seq::<T>::empty()) == s,
{
    assert(Seq::<T>::empty() + s =~= s);
    assert(s + Seq::<T>::empty() =~= s);
}

/// What a bytes field carries under each number.
pub broadcast proof fn lemma_tv_seg_bytes(tag: u32, b: Seq<u8>, t: u32)
    ensures
        #[trigger] tag_values(seg_bytes(tag, b), t) == (if tag == t && b.len() > 0 {
            seq![SpecValue::Bytes(b)]
        } else {
            Seq::<SpecValue>::empty()
        }),
{
    if b.len() > 0 {
        lemma_tag_values_single(SpecField { tag, value: SpecValue::Bytes(b) }, t);
    }
}

/// What a varint field carries under each number.
pub broadcast proof fn lemma_tv_seg_varint(tag: u32, v: u64, t: u32)
    ensures
        #[trigger] tag_values(seg_varint(tag, v), t) == (if tag == t && v != 0 {
            seq![SpecValue::Varint(v)]
        } else {
            Seq::<SpecValue>::empty()
        }),
{
    if v != 0 {
        lemma_tag_values_single(SpecField { tag, value: SpecValue::Varint(v) }, t);
    }
}

/// What an optional bytes field carries under each number.
pub broadcast proof fn lemma_tv_seg_opt_bytes(tag: u32, o: Option<Seq<u8>>, t: u32)
    ensures
        #[trigger] tag_values(seg_opt_bytes(tag, o), t) == (match o {
            Some(b) => if tag == t {
                seq![SpecValue::Bytes(b)]
            } else {
                Seq::<SpecValue>::empty()
            },
            None => Seq::<SpecValue>::empty(),
        }),
{
    if let Some(b) = o {
        lemma_tag_values_single(SpecField { tag, value: SpecValue::Bytes(b) }, t);
    }
}

/// What an optional varint field carries under each number.
pub broadcast proof fn lemma_tv_seg_opt_varint(tag: u32, o: Option<u64>, t: u32)
    ensures
        #[trigger] tag_values(seg_opt_varint(tag, o), t) == (match o {
            Some(v) => if tag == t {
                seq![SpecValue::Varint(v)]
            } else {
                Seq::<SpecValue>::empty()
            },
            None => Seq::<SpecValue>::empty(),
        }),
{
    if let Some(v) = o {
        lemma_tag_values_single(SpecField { tag, value: SpecValue::Varint(v) }, t);
    }
}

/// What a packed field carries under each number.
pub broadcast proof fn lemma_tv_seg_packed(tag: u32, vs: Seq<u64>, t: u32)
    ensures
        #[trigger] tag_values(seg_packed(tag, vs), t) == (if tag == t && vs.len() > 0 {
            seq![SpecValue::Bytes(packed_bytes(vs))]
        } else {
            Seq::<SpecValue>::empty()
        }),
{
    if vs.len() > 0 {
        lemma_tag_values_single(SpecField { tag, value: SpecValue::Bytes(packed_bytes(vs)) }, t);
    }
}

/// The payloads of a repeated bytes field, one per value.
pub open spec fn bytes_values(bs: Seq<Seq<u8>>) -> Seq<SpecValue> {
    Seq::new(bs.len(), |i: int| SpecValue::Bytes(bs[i]))
}

/// What a repeated bytes field carries under each number.
pub broadcast proof fn lemma_tv_seg_rep_bytes(tag: u32, bs: Seq<Seq<u8>>, t: u32)
    ensures
        #[trigger] tag_values(seg_rep_bytes(tag, bs), t) == (if tag == t {
            bytes_values(bs)
        } else {
            Seq::<SpecValue>::empty()
        }),
    decreases bs.len(),
{
    let fs = seg_rep_bytes(tag, bs);
    if bs.len() > 0 {
        assert(fs.drop_first() =~= seg_rep_bytes(tag, bs.drop_first()));
        lemma_tv_seg_rep_bytes(tag, bs.drop_first(), t);
        if tag == t {
            assert(bytes_values(bs) =~= seq![SpecValue::Bytes(bs[0])] + bytes_values(bs.drop_first()));
        }
    } else {
        assert(bytes_values(bs) =~= Seq::<SpecValue>::empty());
    }
}

/// Reading the payloads of a repeated bytes field gives back its values.
pub broadcast proof fn lemma_collect_bytes_values(bs: Seq<Seq<u8>>)
    ensures
        #[trigger] collect_bytes(bytes_values(bs)) == Some(bs),
    decreases bs.len(),
{
    if bs.len() > 0 {
        assert(bytes_values(bs).drop_first() =~= bytes_values(bs.drop_first()));
        lemma_collect_bytes_values(bs.drop_first());
        assert(seq![bs[0]] + bs.drop_first() =~= bs);
    } else {
        assert(bs =~= Seq::<Seq<u8>>::empty());
    }
}

/// The packed varints, read back.
pub proof fn lemma_parse_packed(vs: Seq<u64>)
    ensures
        parse_packed(packed_bytes(vs)) == Some(vs),
    decreases vs.len(),
{
    if vs.len() > 0 {
        let b = packed_bytes(vs);
        lemma_read_varint(vs[0], packed_bytes(vs.drop_first()));
        lemma_varint_len(vs[0]);
        let n = varint(vs[0] as nat).len();
        assert(b.skip(n as int) =~= packed_bytes(vs.drop_first()));
        lemma_parse_packed(vs.drop_first());
        assert(seq![vs[0]] + vs.drop_first() =~= vs);
    } else {
        assert(vs =~= Seq::<u64>::empty());
    }
}

/// Reading a single payload of each kind.
pub broadcast proof fn lemma_collect_single_bytes(b: Seq<u8>)
    ensures
        #[trigger] collect_bytes(seq![SpecValue::Bytes(b)]) == Some(seq![b]),
        #[trigger] collect_packed(seq![SpecValue::Bytes(b)]) == parse_packed(b),
{
    lemma_collect_bytes_single(SpecValue::Bytes(b));
    lemma_collect_packed_single(SpecValue::Bytes(b));
}

/// Reading a single varint payload.
pub broadcast proof fn lemma_collect_single_varint(x: u64)
    ensures
        #[trigger] collect_varints(seq![SpecValue::Varint(x)]) == Some(seq![x]),
{
    lemma_collect_varints_single(SpecValue::Varint(x));
}

/// The packed encoding of no values is empty.
pub broadcast proof fn lemma_packed_round_trip(vs: Seq<u64>)
    ensures
        #[trigger] parse_packed(packed_bytes(vs)) == Some(vs),
{
    lemma_parse_packed(vs);
}

/// Every field of the segments carries a legal number.
pub broadcast proof fn lemma_tags_ok_concat(a: Seq<SpecField>, b: Seq<SpecField>)
    requires
        tags_ok(a),
        tags_ok(b),
    ensures
        #[trigger] tags_ok(a + b),
{
    assert forall|i: int| 0 <= i < (a + b).len() implies 1 <= #[trigger] (a + b)[i].tag < 0x2000_0000 by {
        if i < a.len() {
            assert((a + b)[i] == a[i]);
        } else {
            assert((a + b)[i] == b[i - a.len()]);
        }
    }
}

/// The segments of a field carry only its number.
pub broadcast proof fn lemma_tags_ok_segs(tag: u32, b: Seq<u8>, v: u64, bs: Seq<Seq<u8>>, ob: Option<Seq<u8>>, ov: Option<u64>, vs: Seq<u64>)
    requires
        1 <= tag < 0x2000_0000,
    ensures
        #[trigger] tags_ok(seg_bytes(tag, b)),
        #[trigger] tags_ok(seg_varint(tag, v)),
        #[trigger] tags_ok(seg_rep_bytes(tag, bs)),
        #[trigger] tags_ok(seg_opt_bytes(tag, ob)),
        #[trigger] tags_ok(seg_opt_varint(tag, ov)),
        #[trigger] tags_ok(seg_packed(tag, vs)),
{
}

/// The bytes of two lists of fields, one after the other.
pub broadcast proof fn lemma_fields_bytes_add(a: Seq<SpecField>, b: Seq<SpecField>)
    ensures
        #[trigger] fields_bytes(a + b) == fields_bytes(a) + fields_bytes(b),
{
    lemma_fields_bytes_concat(a, b);
}

/// A sequence of length zero is the empty sequence.
pub broadcast proof fn lemma_len_zero_empty<T>(s: Seq<T>)
    ensures
        #[trigger] s.len() == 0 ==> s == Seq::<T>::empty(),
{
    if s.len() == 0 {
        assert(s =~= Seq::<T>::empty());
    }
}

/// Signed and unsigned 64-bit values convert back and forth.
pub broadcast proof fn lemma_i64_cast(x: i64)
    ensures
        #[trigger] ((x as u64) as i64) == x,
        (x as u64 == 0) == (x == 0),
{
    assert(((x as u64) as i64) == x) by (bit_vector);
    assert((x as u64 == 0) == (x == 0)) by (bit_vector);
}

/// 32-bit signed values are sent sign-extended to 64 bits.
pub broadcast proof fn lemma_i32_cast(x: i32)
    ensures
        #[trigger] (((x as i64) as u64) as i32) == x,
        ((x as i64) as u64 == 0) == (x == 0),
{
    assert((((x as i64) as u64) as i32) == x) by (bit_vector);
    assert(((x as i64) as u64 == 0) == (x == 0)) by (bit_vector);
}

/// Unsigned 32-bit values are sent as 64-bit values.
pub broadcast proof fn lemma_u32_cast(x: u32)
    ensures
        #[trigger] ((x as u64) as u32) == x,
{
}

/// The group of facts that reading a message's fields back relies on.
pub broadcast group group_codec {
    lemma_tag_values_concat,
    lemma_tag_values_empty,
    lemma_collect_bytes_concat,
    lemma_collect_bytes_empty,
    lemma_collect_varints_concat,
    lemma_collect_varints_empty,
    lemma_collect_packed_concat,
    lemma_collect_packed_empty,
    lemma_add_empty,
    lemma_tv_seg_bytes,
    lemma_tv_seg_varint,
    lemma_tv_seg_opt_bytes,
    lemma_tv_seg_opt_varint,
    lemma_tv_seg_packed,
    lemma_tv_seg_rep_bytes,
    lemma_collect_bytes_values,
    lemma_collect_single_bytes,
    lemma_collect_single_varint,
    lemma_packed_round_trip,
    lemma_tags_ok_concat,
    lemma_tags_ok_segs,
    lemma_len_zero_empty,
    lemma_fields_bytes_add,
    lemma_i64_cast,
    lemma_i32_cast,
    lemma_u32_cast,
}

/// The views of a list of byte strings.
pub open spec fn bytes_list_view(v: Seq<Vec<u8>>) -> Seq<Seq<u8>> {
    Seq::new(v.len(), |i: int| v[i]@)
}

/// Turns bytes into text when they are UTF-8 (the standard library's
/// `String::from_utf8`, which fails exactly on invalid UTF-8).
#[verifier::external_body]
pub(crate) fn utf8_to_string(b: Vec<u8>) -> (r: Option<String>)
    ensures
        r is Some <==> valid_utf8(b@),
        r matches Some(s) ==> s@ == decode_utf8(b@),
{
    String::from_utf8(b).ok()
}

proof fn lemma_take_step(fs: Seq<Field>, i: int, tag: u32)
    requires
        0 <= i < fs.len(),
    ensures
        fields_view(fs)[i] == fs[i]@,
        ({
            let fv = fields_view(fs);
            let a = tag_values(fv.take(i), tag);
            let b = tag_values(fv.take(i + 1), tag);
            &&& collect_bytes(b) == (if fs[i].tag == tag {
                opt_concat(collect_bytes(a), bytes_of(fs[i]@.value))
            } else {
                collect_bytes(a)
            })
            &&& collect_varints(b) == (if fs[i].tag == tag {
                opt_concat(collect_varints(a), varint_of(fs[i]@.value))
            } else {
                collect_varints(a)
            })
            &&& collect_packed(b) == (if fs[i].tag == tag {
                opt_concat(collect_packed(a), packed_of(fs[i]@.value))
            } else {
                collect_packed(a)
            })
        }),
{
    broadcast use {lemma_tag_values_concat, lemma_tag_values_single, lemma_collect_bytes_concat,
        lemma_collect_bytes_single, lemma_collect_varints_concat, lemma_collect_varints_single,
        lemma_collect_packed_concat, lemma_collect_packed_single, lemma_collect_bytes_empty,
        lemma_collect_varints_empty, lemma_collect_packed_empty};
    let fv = fields_view(fs);
    assert(fv.take(i + 1) =~= fv.take(i) + seq![fs[i]@]);
    let a = tag_values(fv.take(i), tag);
    if fs[i].tag != tag {
        assert(a + Seq::<SpecValue>::empty() =~= a);
    }
    match collect_bytes(a) {
        Some(x) => { assert(x + Seq::<Seq<u8>>::empty() =~= x); },
        None => {},
    }
    match collect_varints(a) {
        Some(x) => { assert(x + Seq::<u64>::empty() =~= x); },
        None => {},
    }
    match collect_packed(a) {
        Some(x) => { assert(x + Seq::<u64>::empty() =~= x); },
        None => {},
    }
}

proof fn lemma_take_all(fs: Seq<Field>)
    ensures
        fields_view(fs).take(fs.len() as int) == fields_view(fs),
        fields_view(fs) == fields_view(fs).take(0) + fields_view(fs),
{
    assert(fields_view(fs).take(fs.len() as int) =~= fields_view(fs));
    assert(fields_view(fs).take(0) + fields_view(fs) =~= fields_view(fs));
}

proof fn lemma_stop(fv: Seq<SpecField>, i: int, tag: u32)
    requires
        0 <= i < fv.len(),
    ensures
        collect_bytes(tag_values(fv.take(i + 1), tag)) is None ==> collect_bytes(tag_values(fv, tag)) is None,
        collect_varints(tag_values(fv.take(i + 1), tag)) is None ==> collect_varints(tag_values(fv, tag)) is None,
        collect_packed(tag_values(fv.take(i + 1), tag)) is None ==> collect_packed(tag_values(fv, tag)) is None,
{
    broadcast use {lemma_tag_values_concat, lemma_collect_bytes_concat, lemma_collect_varints_concat, lemma_collect_packed_concat};
    assert(fv =~= fv.take(i + 1) + fv.skip(i + 1));
}

/// Reads a singular bytes field.
pub fn get_bytes(fs: &Vec<Field>, tag: u32) -> (r: Result<Vec<u8>, DecodeError>)
    ensures
        match get_bytes_spec(fields_view(fs@), tag) {
            Some(b) => r matches Ok(x) && x@ == b,
            None => r is Err,
        },
{
    broadcast use {lemma_tag_values_concat, lemma_tag_values_single, lemma_collect_bytes_concat, lemma_collect_bytes_single, lemma_collect_varints_concat, lemma_collect_varints_single, lemma_collect_packed_concat, lemma_collect_packed_single};
    let ghost fv = fields_view(fs@);
    let mut cur: Vec<u8> = Vec::new();
    let mut i: usize = 0;
    while i < fs.len()
        invariant
            i <= fs@.len(),
            fv == fields_view(fs@),
            collect_bytes(tag_values(fv.take(i as int), tag)) matches Some(s)
                && cur@ == last_or(s, Seq::<u8>::empty()),
        decreases fs@.len() - i,
    {
        proof { lemma_take_step(fs@, i as int, tag); }
        let f = &fs[i];
        if f.tag == tag {
            match &f.value {
                WireValue::Bytes(b) => {
                    cur = vstd::slice::slice_to_vec(b.as_slice());
                },
                _ => {
                    proof { lemma_stop(fv, i as int, tag); }
                    return Err(DecodeError);
                },
            }
        }
        i = i + 1;
    }
    proof { lemma_take_all(fs@); }
    Ok(cur)
}

/// Reads a singular varint field.
pub fn get_varint(fs: &Vec<Field>, tag: u32) -> (r: Result<u64, DecodeError>)
    ensures
        match get_varint_spec(fields_view(fs@), tag) {
            Some(x) => r == Ok::<u64, DecodeError>(x),
            None => r is Err,
        },
{
    broadcast use {lemma_tag_values_concat, lemma_tag_values_single, lemma_collect_bytes_concat, lemma_collect_bytes_single, lemma_collect_varints_concat, lemma_collect_varints_single, lemma_collect_packed_concat, lemma_collect_packed_single};
    let ghost fv = fields_view(fs@);
    let mut cur: u64 = 0;
    let mut i: usize = 0;
    while i < fs.len()
        invariant
            i <= fs@.len(),
            fv == fields_view(fs@),
            collect_varints(tag_values(fv.take(i as int), tag)) matches Some(s)
                && cur == last_or(s, 0u64),
        decreases fs@.len() - i,
    {
        proof { lemma_take_step(fs@, i as int, tag); }
        let f = &fs[i];
        if f.tag == tag {
            match &f.value {
                WireValue::Varint(x) => {
                    cur = *x;
                },
                _ => {
                    proof { lemma_stop(fv, i as int, tag); }
                    return Err(DecodeError);
                },
            }
        }
        i = i + 1;
    }
    proof { lemma_take_all(fs@); }
    Ok(cur)
}

/// Reads an optional bytes field.
pub fn get_opt_bytes(fs: &Vec<Field>, tag: u32) -> (r: Result<Option<Vec<u8>>, DecodeError>)
    ensures
        match get_opt_bytes_spec(fields_view(fs@), tag) {
            Some(Some(b)) => r matches Ok(Some(x)) && x@ == b,
            Some(None) => r matches Ok(None),
            None => r is Err,
        },
{
    broadcast use {lemma_tag_values_concat, lemma_tag_values_single, lemma_collect_bytes_concat, lemma_collect_bytes_single, lemma_collect_varints_concat, lemma_collect_varints_single, lemma_collect_packed_concat, lemma_collect_packed_single};
    let ghost fv = fields_view(fs@);
    let mut cur: Option<Vec<u8>> = None;
    let mut i: usize = 0;
    while i < fs.len()
        invariant
            i <= fs@.len(),
            fv == fields_view(fs@),
            collect_bytes(tag_values(fv.take(i as int), tag)) matches Some(s)
                && (match last_opt(s) {
                    Some(b) => cur matches Some(x) && x@ == b,
                    None => cur is None,
                }),
        decreases fs@.len() - i,
    {
        proof { lemma_take_step(fs@, i as int, tag); }
        let f = &fs[i];
        if f.tag == tag {
            match &f.value {
                WireValue::Bytes(b) => {
                    cur = Some(vstd::slice::slice_to_vec(b.as_slice()));
                },
                _ => {
                    proof { lemma_stop(fv, i as int, tag); }
                    return Err(DecodeError);
                },
            }
        }
        i = i + 1;
    }
    proof { lemma_take_all(fs@); }
    Ok(cur)
}

/// Reads an optional varint field.
pub fn get_opt_varint(fs: &Vec<Field>, tag: u32) -> (r: Result<Option<u64>, DecodeError>)
    ensures
        match get_opt_varint_spec(fields_view(fs@), tag) {
            Some(o) => r == Ok::<Option<u64>, DecodeError>(o),
            None => r is Err,
        },
{
    broadcast use {lemma_tag_values_concat, lemma_tag_values_single, lemma_collect_bytes_concat, lemma_collect_bytes_single, lemma_collect_varints_concat, lemma_collect_varints_single, lemma_collect_packed_concat, lemma_collect_packed_single};
    let ghost fv = fields_view(fs@);
    let mut cur: Option<u64> = None;
    let mut i: usize = 0;
    while i < fs.len()
        invariant
            i <= fs@.len(),
            fv == fields_view(fs@),
            collect_varints(tag_values(fv.take(i as int), tag)) matches Some(s)
                && cur == last_opt(s),
        decreases fs@.len() - i,
    {
        proof { lemma_take_step(fs@, i as int, tag); }
        let f = &fs[i];
        if f.tag == tag {
            match &f.value {
                WireValue::Varint(x) => {
                    cur = Some(*x);
                },
                _ => {
                    proof { lemma_stop(fv, i as int, tag); }
                    return Err(DecodeError);
                },
            }
        }
        i = i + 1;
    }
    proof { lemma_take_all(fs@); }
    Ok(cur)
}

/// Reads a repeated bytes field.
pub fn get_rep_bytes(fs: &Vec<Field>, tag: u32) -> (r: Result<Vec<Vec<u8>>, DecodeError>)
    ensures
        match get_rep_bytes_spec(fields_view(fs@), tag) {
            Some(bs) => r matches Ok(x) && bytes_list_view(x@) == bs,
            None => r is Err,
        },
{
    broadcast use {lemma_tag_values_concat, lemma_tag_values_single, lemma_collect_bytes_concat, lemma_collect_bytes_single, lemma_collect_varints_concat, lemma_collect_varints_single, lemma_collect_packed_concat, lemma_collect_packed_single};
    let ghost fv = fields_view(fs@);
    let mut cur: Vec<Vec<u8>> = Vec::new();
    let mut i: usize = 0;
    while i < fs.len()
        invariant
            i <= fs@.len(),
            fv == fields_view(fs@),
            collect_bytes(tag_values(fv.take(i as int), tag)) == Some(bytes_list_view(cur@)),
        decreases fs@.len() - i,
    {
        proof { lemma_take_step(fs@, i as int, tag); }
        let f = &fs[i];
        if f.tag == tag {
            match &f.value {
                WireValue::Bytes(b) => {
                    let ghost before = bytes_list_view(cur@);
                    cur.push(vstd::slice::slice_to_vec(b.as_slice()));
                    assert(bytes_list_view(cur@) =~= before + seq![b@]);
                },
                _ => {
                    proof { lemma_stop(fv, i as int, tag); }
                    return Err(DecodeError);
                },
            }
        }
        i = i + 1;
    }
    proof { lemma_take_all(fs@); }
    Ok(cur)
}

/// Reads packed varints.
pub fn decode_packed(b: &[u8]) -> (r: Option<Vec<u64>>)
    ensures
        r matches Some(x) ==> parse_packed(b@) == Some(x@),
        r is None ==> parse_packed(b@) is None,
{
    let mut out: Vec<u64> = Vec::new();
    let mut pos: usize = 0;
    proof {
        assert(b@.skip(0) =~= b@);
        match parse_packed(b@) {
            Some(r) => { assert(out@ + r =~= r); },
            None => {},
        }
    }
    while pos < b.len()
        invariant
            pos <= b@.len(),
            parse_packed(b@) == (match parse_packed(b@.skip(pos as int)) {
                Some(r) => Some(out@ + r),
                None => None,
            }),
        decreases b@.len() - pos,
    {
        let ghost t = b@.skip(pos as int);
        match decode_varint_at(b, pos) {
            Some((v, n)) => {
                proof {
                    assert(t.skip(n as int) =~= b@.skip(pos + n));
                    match parse_packed(b@.skip(pos + n)) {
                        Some(r) => { assert(out@ + (seq![v] + r) =~= out@.push(v) + r); },
                        None => {},
                    }
                }
                out.push(v);
                pos = pos + n;
            },
            None => { return None; },
        }
    }
    proof {
        assert(b@.skip(pos as int) =~= Seq::<u8>::empty());
        assert(out@ + Seq::<u64>::empty() =~= out@);
    }
    Some(out)
}

/// Reads a packed repeated scalar field.
pub fn get_packed(fs: &Vec<Field>, tag: u32) -> (r: Result<Vec<u64>, DecodeError>)
    ensures
        match get_packed_spec(fields_view(fs@), tag) {
            Some(vs) => r matches Ok(x) && x@ == vs,
            None => r is Err,
        },
{
    broadcast use {lemma_tag_values_concat, lemma_tag_values_single, lemma_collect_bytes_concat, lemma_collect_bytes_single, lemma_collect_varints_concat, lemma_collect_varints_single, lemma_collect_packed_concat, lemma_collect_packed_single};
    let ghost fv = fields_view(fs@);
    let mut cur: Vec<u64> = Vec::new();
    let mut i: usize = 0;
    while i < fs.len()
        invariant
            i <= fs@.len(),
            fv == fields_view(fs@),
            collect_packed(tag_values(fv.take(i as int), tag)) == Some(cur@),
        decreases fs@.len() - i,
    {
        proof { lemma_take_step(fs@, i as int, tag); }
        let f = &fs[i];
        if f.tag == tag {
            match &f.value {
                WireValue::Varint(x) => {
                    cur.push(*x);
                },
                WireValue::Bytes(b) => {
                    match decode_packed(b.as_slice()) {
                        Some(mut more) => {
                            cur.append(&mut more);
                        },
                        None => {
                            proof { lemma_stop(fv, i as int, tag); }
                            return Err(DecodeError);
                        },
                    }
                },
                _ => {
                    proof { lemma_stop(fv, i as int, tag); }
                    return Err(DecodeError);
                },
            }
        }
        i = i + 1;
    }
    proof { lemma_take_all(fs@); }
    Ok(cur)
}

/// Reads a singular text field.
pub fn get_string(fs: &Vec<Field>, tag: u32) -> (r: Result<String, DecodeError>)
    ensures
        match get_string_spec(fields_view(fs@), tag) {
            Some(s) => r matches Ok(x) && x@ == s,
            None => r is Err,
        },
{
    let b = get_bytes(fs, tag)?;
    match utf8_to_string(b) {
        Some(s) => Ok(s),
        None => Err(DecodeError),
    }
}

/// Reads an optional text field.
pub fn get_opt_string(fs: &Vec<Field>, tag: u32) -> (r: Result<Option<String>, DecodeError>)
    ensures
        match get_opt_string_spec(fields_view(fs@), tag) {
            Some(Some(s)) => r matches Ok(Some(x)) && x@ == s,
            Some(None) => r matches Ok(None),
            None => r is Err,
        },
{
    match get_opt_bytes(fs, tag)? {
        Some(b) => match utf8_to_string(b) {
            Some(s) => Ok(Some(s)),
            None => Err(DecodeError),
        },
        None => Ok(None),
    }
}

/// Writes a bytes field (nothing when empty).
pub fn put_bytes_seg(buf: &mut Vec<u8>, tag: u32, b: &[u8])
    requires
        1 <= tag < 0x2000_0000,
    ensures
        final(buf)@ == old(buf)@ + fields_bytes(seg_bytes(tag, b@)),
{
    if b.len() == 0 {
        assert(fields_bytes(seg_bytes(tag, b@)) =~= Seq::<u8>::empty());
        assert(buf@ + Seq::<u8>::empty() =~= buf@);
    } else {
        put_bytes_field(buf, tag, b);
        proof { lemma_fields_bytes_single(SpecField { tag, value: SpecValue::Bytes(b@) }); }
    }
}

/// The wire form of an optional signed integer.
pub open spec fn opt_i64_bits(o: Option<i64>) -> Option<u64> {
    match o {
        Some(v) => Some(v as u64),
        None => None,
    }
}

/// Writes the set variant of a one-of field: one length-delimited field,
/// written even when its payload is empty.
pub fn put_oneof_field(buf: &mut Vec<u8>, tag: u32, b: &[u8])
    requires
        1 <= tag < 0x2000_0000,
    ensures
        final(buf)@ == old(buf)@ + fields_bytes(seq![SpecField { tag, value: SpecValue::Bytes(b@) }]),
{
    put_bytes_field(buf, tag, b);
    proof { lemma_fields_bytes_single(SpecField { tag, value: SpecValue::Bytes(b@) }); }
}

/// Writes a text field (nothing when empty).
pub fn put_string_seg(buf: &mut Vec<u8>, tag: u32, s: &String)
    requires
        1 <= tag < 0x2000_0000,
    ensures
        final(buf)@ == old(buf)@ + fields_bytes(seg_bytes(tag, encode_utf8(s@))),
{
    put_bytes_seg(buf, tag, s.as_str().as_bytes());
}

/// Writes a varint field (nothing when zero).
pub fn put_varint_seg(buf: &mut Vec<u8>, tag: u32, v: u64)
    requires
        1 <= tag < 0x2000_0000,
    ensures
        final(buf)@ == old(buf)@ + fields_bytes(seg_varint(tag, v)),
{
    if v == 0 {
        assert(fields_bytes(seg_varint(tag, v)) =~= Seq::<u8>::empty());
        assert(buf@ + Seq::<u8>::empty() =~= buf@);
    } else {
        put_varint_field(buf, tag, v);
        proof { lemma_fields_bytes_single(SpecField { tag, value: SpecValue::Varint(v) }); }
    }
}

/// Writes an optional bytes field (present whenever set).
pub fn put_opt_bytes_seg(buf: &mut Vec<u8>, tag: u32, o: Option<&[u8]>)
    requires
        1 <= tag < 0x2000_0000,
    ensures
        final(buf)@ == old(buf)@ + fields_bytes(seg_opt_bytes(tag, match o {
            Some(b) => Some(b@),
            None => None,
        })),
{
    match o {
        Some(b) => {
            put_bytes_field(buf, tag, b);
            proof { lemma_fields_bytes_single(SpecField { tag, value: SpecValue::Bytes(b@) }); }
        },
        None => {
            assert(buf@ + Seq::<u8>::empty() =~= buf@);
        },
    }
}

/// Writes an optional varint field (present whenever set).
pub fn put_opt_varint_seg(buf: &mut Vec<u8>, tag: u32, o: Option<u64>)
    requires
        1 <= tag < 0x2000_0000,
    ensures
        final(buf)@ == old(buf)@ + fields_bytes(seg_opt_varint(tag, o)),
{
    match o {
        Some(v) => {
            put_varint_field(buf, tag, v);
            proof { lemma_fields_bytes_single(SpecField { tag, value: SpecValue::Varint(v) }); }
        },
        None => {
            assert(buf@ + Seq::<u8>::empty() =~= buf@);
        },
    }
}

/// Writes a repeated bytes field: one field per value.
pub fn put_rep_bytes_seg(buf: &mut Vec<u8>, tag: u32, bs: &Vec<Vec<u8>>)
    requires
        1 <= tag < 0x2000_0000,
    ensures
        final(buf)@ == old(buf)@ + fields_bytes(seg_rep_bytes(tag, bytes_list_view(bs@))),
{
    let ghost start = buf@;
    let ghost all = seg_rep_bytes(tag, bytes_list_view(bs@));
    let mut i: usize = 0;
    assert(all.take(0) =~= Seq::<SpecField>::empty());
    assert(start + Seq::<u8>::empty() =~= start);
    while i < bs.len()
        invariant
            i <= bs@.len(),
            1 <= tag < 0x2000_0000,
            all == seg_rep_bytes(tag, bytes_list_view(bs@)),
            buf@ == start + fields_bytes(all.take(i as int)),
        decreases bs@.len() - i,
    {
        put_bytes_field(buf, tag, bs[i].as_slice());
        proof {
            let f = SpecField { tag, value: SpecValue::Bytes(bs@[i as int]@) };
            assert(all.take(i + 1) =~= all.take(i as int) + seq![f]);
            lemma_fields_bytes_concat(all.take(i as int), seq![f]);
            lemma_fields_bytes_single(f);
        }
        i = i + 1;
    }
    assert(all.take(bs@.len() as int) =~= all);
}

/// Appends the packed encoding of `vs`.
fn put_packed_values(buf: &mut Vec<u8>, vs: &Vec<u64>)
    ensures
        final(buf)@ == old(buf)@ + packed_bytes(vs@),
{
    let ghost start = buf@;
    let mut i: usize = 0;
    proof { lemma_packed_bytes_take(vs@, 0); }
    assert(start + Seq::<u8>::empty() =~= start);
    while i < vs.len()
        invariant
            i <= vs@.len(),
            buf@ == start + packed_bytes(vs@.take(i as int)),
        decreases vs@.len() - i,
    {
        put_varint(vs[i], buf);
        proof { lemma_packed_bytes_take(vs@, i as int + 1); }
        i = i + 1;
    }
    assert(vs@.take(vs@.len() as int) =~= vs@);
}

proof fn lemma_packed_bytes_concat(a: Seq<u64>, b: Seq<u64>)
    ensures
        packed_bytes(a + b) == packed_bytes(a) + packed_bytes(b),
    decreases a.len(),
{
    if a.len() == 0 {
        assert(a + b =~= b);
        assert(packed_bytes(a) + packed_bytes(b) =~= packed_bytes(b));
    } else {
        assert((a + b).drop_first() =~= a.drop_first() + b);
        lemma_packed_bytes_concat(a.drop_first(), b);
        assert(packed_bytes(a + b) =~= varint(a[0] as nat) + (packed_bytes(a.drop_first()) + packed_bytes(b)));
    }
}

proof fn lemma_packed_bytes_take(vs: Seq<u64>, i: int)
    requires
        0 <= i <= vs.len(),
    ensures
        i == 0 ==> packed_bytes(vs.take(i)) == Seq::<u8>::empty(),
        i > 0 ==> packed_bytes(vs.take(i)) == packed_bytes(vs.take(i - 1)) + varint(vs[i - 1] as nat),
{
    if i == 0 {
        assert(vs.take(0) =~= Seq::<u64>::empty());
    } else {
        assert(vs.take(i) =~= vs.take(i - 1) + seq![vs[i - 1]]);
        lemma_packed_bytes_concat(vs.take(i - 1), seq![vs[i - 1]]);
        let e = seq![vs[i - 1]].drop_first();
        assert(e =~= Seq::<u64>::empty());
        assert(packed_bytes(e) == Seq::<u8>::empty());
        assert(packed_bytes(seq![vs[i - 1]]) =~= varint(vs[i - 1] as nat));
    }
}

/// Writes a packed repeated scalar field (nothing when empty).
pub fn put_packed_seg(buf: &mut Vec<u8>, tag: u32, vs: &Vec<u64>)
    requires
        1 <= tag < 0x2000_0000,
    ensures
        final(buf)@ == old(buf)@ + fields_bytes(seg_packed(tag, vs@)),
{
    if vs.len() == 0 {
        assert(buf@ + Seq::<u8>::empty() =~= buf@);
    } else {
        let mut payload: Vec<u8> = Vec::new();
        put_packed_values(&mut payload, vs);
        assert(payload@ =~= packed_bytes(vs@));
        put_bytes_field(buf, tag, payload.as_slice());
        proof { lemma_fields_bytes_single(SpecField { tag, value: SpecValue::Bytes(packed_bytes(vs@)) }); }
    }
}

/// The fields of a message: its segments, one after the other.
pub open spec fn flatten(segs: Seq<Seq<SpecField>>) -> Seq<SpecField>
    decreases segs.len(),
{
    if segs.len() == 0 {
        Seq::empty()
    } else {
        flatten(segs.drop_last()) + segs.last()
    }
}

/// Every field of `fs` has a number between `lo` and `hi`.
pub open spec fn all_in(fs: Seq<SpecField>, lo: u32, hi: u32) -> bool {
    forall|j: int| 0 <= j < fs.len() ==> lo <= #[trigger] fs[j].tag <= hi
}

/// The fields whose number lies between `lo` and `hi`, in order.
pub open spec fn range_fields(fs: Seq<SpecField>, lo: u32, hi: u32) -> Seq<SpecField>
    decreases fs.len(),
{
    if fs.len() == 0 {
        Seq::empty()
    } else {
        let rest = range_fields(fs.drop_first(), lo, hi);
        if lo <= fs[0].tag <= hi {
            seq![fs[0]] + rest
        } else {
            rest
        }
    }
}

proof fn lemma_all_in_rest(fs: Seq<SpecField>, lo: u32, hi: u32)
    requires
        all_in(fs, lo, hi),
        fs.len() > 0,
    ensures
        all_in(fs.drop_first(), lo, hi),
        lo <= fs[0].tag <= hi,
{
    assert forall|j: int| 0 <= j < fs.drop_first().len() implies lo <= #[trigger] fs.drop_first()[j].tag <= hi by {
        assert(fs.drop_first()[j] == fs[j + 1]);
    }
}

/// Fields of some numbers carry nothing under another.
pub proof fn lemma_tv_all_in(fs: Seq<SpecField>, lo: u32, hi: u32, t: u32)
    requires
        all_in(fs, lo, hi),
        t < lo || hi < t,
    ensures
        tag_values(fs, t) == Seq::<SpecValue>::empty(),
    decreases fs.len(),
{
    if fs.len() > 0 {
        lemma_all_in_rest(fs, lo, hi);
        lemma_tv_all_in(fs.drop_first(), lo, hi, t);
    }
}

/// Fields of some numbers hold none of a disjoint range.
pub proof fn lemma_rf_all_in(fs: Seq<SpecField>, lo: u32, hi: u32, lo2: u32, hi2: u32)
    requires
        all_in(fs, lo, hi),
        hi2 < lo || hi < lo2,
    ensures
        range_fields(fs, lo2, hi2) == Seq::<SpecField>::empty(),
    decreases fs.len(),
{
    if fs.len() > 0 {
        lemma_all_in_rest(fs, lo, hi);
        lemma_rf_all_in(fs.drop_first(), lo, hi, lo2, hi2);
    }
}

/// The fields in a range of two lists, one after the other.
pub proof fn lemma_range_fields_concat(a: Seq<SpecField>, b: Seq<SpecField>, lo: u32, hi: u32)
    ensures
        range_fields(a + b, lo, hi) == range_fields(a, lo, hi) + range_fields(b, lo, hi),
    decreases a.len(),
{
    if a.len() == 0 {
        assert(a + b =~= b);
        assert(range_fields(a, lo, hi) + range_fields(b, lo, hi) =~= range_fields(b, lo, hi));
    } else {
        assert((a + b).drop_first() =~= a.drop_first() + b);
        lemma_range_fields_concat(a.drop_first(), b, lo, hi);
        if lo <= a[0].tag <= hi {
            assert(seq![a[0]] + (range_fields(a.drop_first(), lo, hi) + range_fields(b, lo, hi))
                =~= (seq![a[0]] + range_fields(a.drop_first(), lo, hi)) + range_fields(b, lo, hi));
        }
    }
}

/// The segments of a message: segment `k` carries numbers in `ranges[k]`,
/// and the ranges are legal, in increasing order and disjoint.
pub open spec fn segs_ok(segs: Seq<Seq<SpecField>>, ranges: Seq<(u32, u32)>) -> bool {
    &&& segs.len() == ranges.len()
    &&& forall|k: int| 0 <= k < segs.len() ==> all_in(#[trigger] segs[k], ranges[k].0, ranges[k].1)
    &&& forall|k: int| 0 <= k < ranges.len() ==> 1 <= (#[trigger] ranges[k]).0 <= ranges[k].1 < 0x2000_0000
    &&& forall|k: int, l: int| 0 <= k < l < ranges.len() ==> (#[trigger] ranges[k]).1 < (#[trigger] ranges[l]).0
}

proof fn lemma_segs_ok_prefix(segs: Seq<Seq<SpecField>>, ranges: Seq<(u32, u32)>)
    requires
        segs_ok(segs, ranges),
        segs.len() > 0,
    ensures
        segs_ok(segs.drop_last(), ranges.drop_last()),
{
    assert forall|k: int| 0 <= k < segs.drop_last().len() implies all_in(#[trigger] segs.drop_last()[k], ranges.drop_last()[k].0, ranges.drop_last()[k].1) by {
        assert(segs.drop_last()[k] == segs[k]);
    }
}

/// What a message carries under a number of one of its segments is what
/// that segment carries.
pub proof fn lemma_flatten_tag(segs: Seq<Seq<SpecField>>, ranges: Seq<(u32, u32)>, i: int, t: u32)
    requires
        segs_ok(segs, ranges),
        0 <= i < segs.len(),
        ranges[i].0 <= t <= ranges[i].1,
    ensures
        tag_values(flatten(segs), t) == tag_values(segs[i], t),
    decreases segs.len(),
{
    let n = segs.len();
    let last = segs.last();
    lemma_segs_ok_prefix(segs, ranges);
    lemma_tag_values_concat(flatten(segs.drop_last()), last, t);
    if i == n - 1 {
        lemma_tv_before(segs.drop_last(), ranges.drop_last(), t);
        lemma_add_empty(tag_values(last, t));
    } else {
        lemma_flatten_tag(segs.drop_last(), ranges.drop_last(), i, t);
        assert(ranges[i].1 < ranges[n - 1].0);
        lemma_tv_all_in(last, ranges[n - 1].0, ranges[n - 1].1, t);
        lemma_add_empty(tag_values(segs[i], t));
    }
}

/// A number above every range: nothing is carried under it.
proof fn lemma_tv_before(segs: Seq<Seq<SpecField>>, ranges: Seq<(u32, u32)>, t: u32)
    requires
        segs_ok(segs, ranges),
        forall|k: int| 0 <= k < ranges.len() ==> (#[trigger] ranges[k]).1 < t,
    ensures
        tag_values(flatten(segs), t) == Seq::<SpecValue>::empty(),
    decreases segs.len(),
{
    if segs.len() > 0 {
        let n = segs.len();
        lemma_segs_ok_prefix(segs, ranges);
        lemma_tv_before(segs.drop_last(), ranges.drop_last(), t);
        lemma_tag_values_concat(flatten(segs.drop_last()), segs.last(), t);
        assert(ranges[n - 1].1 < t);
        lemma_tv_all_in(segs.last(), ranges[n - 1].0, ranges[n - 1].1, t);
        lemma_add_empty(Seq::<SpecValue>::empty());
    }
}

/// What a message holds in the range of one of its segments is what that
/// segment holds.
pub proof fn lemma_flatten_range(segs: Seq<Seq<SpecField>>, ranges: Seq<(u32, u32)>, i: int)
    requires
        segs_ok(segs, ranges),
        0 <= i < segs.len(),
    ensures
        range_fields(flatten(segs), ranges[i].0, ranges[i].1) == range_fields(segs[i], ranges[i].0, ranges[i].1),
    decreases segs.len(),
{
    let n = segs.len();
    let last = segs.last();
    let (lo, hi) = ranges[i];
    lemma_segs_ok_prefix(segs, ranges);
    lemma_range_fields_concat(flatten(segs.drop_last()), last, lo, hi);
    if i == n - 1 {
        lemma_rf_before(segs.drop_last(), ranges.drop_last(), lo, hi);
        lemma_add_empty(range_fields(last, lo, hi));
    } else {
        lemma_flatten_range(segs.drop_last(), ranges.drop_last(), i);
        assert(ranges[i].1 < ranges[n - 1].0);
        lemma_rf_all_in(last, ranges[n - 1].0, ranges[n - 1].1, lo, hi);
        lemma_add_empty(range_fields(segs[i], lo, hi));
    }
}

proof fn lemma_rf_before(segs: Seq<Seq<SpecField>>, ranges: Seq<(u32, u32)>, lo: u32, hi: u32)
    requires
        segs_ok(segs, ranges),
        forall|k: int| 0 <= k < ranges.len() ==> (#[trigger] ranges[k]).1 < lo,
    ensures
        range_fields(flatten(segs), lo, hi) == Seq::<SpecField>::empty(),
    decreases segs.len(),
{
    if segs.len() > 0 {
        let n = segs.len();
        lemma_segs_ok_prefix(segs, ranges);
        lemma_rf_before(segs.drop_last(), ranges.drop_last(), lo, hi);
        lemma_range_fields_concat(flatten(segs.drop_last()), segs.last(), lo, hi);
        assert(ranges[n - 1].1 < lo);
        lemma_rf_all_in(segs.last(), ranges[n - 1].0, ranges[n - 1].1, lo, hi);
        lemma_add_empty(Seq::<SpecField>::empty());
    }
}

/// The fields of a message carry legal numbers.
pub proof fn lemma_flatten_tags_ok(segs: Seq<Seq<SpecField>>, ranges: Seq<(u32, u32)>)
    requires
        segs_ok(segs, ranges),
    ensures
        tags_ok(flatten(segs)),
    decreases segs.len(),
{
    if segs.len() > 0 {
        let n = segs.len();
        lemma_segs_ok_prefix(segs, ranges);
        lemma_flatten_tags_ok(segs.drop_last(), ranges.drop_last());
        assert(tags_ok(segs.last())) by {
            assert(all_in(segs[n - 1], ranges[n - 1].0, ranges[n - 1].1));
            assert forall|j: int| 0 <= j < segs.last().len() implies 1 <= #[trigger] segs.last()[j].tag < 0x2000_0000 by {
                assert(ranges[n - 1].0 <= segs.last()[j].tag <= ranges[n - 1].1);
            }
        }
        lemma_tags_ok_concat(flatten(segs.drop_last()), segs.last());
    }
}

/// Single-field ranges 1, 2, ..., n.
pub open spec fn simple_ranges(n: nat) -> Seq<(u32, u32)> {
    Seq::new(n, |i: int| ((i + 1) as u32, (i + 1) as u32))
}

/// Building the fields of a message one segment at a time.
pub proof fn lemma_flatten_take(segs: Seq<Seq<SpecField>>, k: int)
    requires
        0 <= k < segs.len(),
    ensures
        fields_bytes(flatten(segs.take(k + 1))) == fields_bytes(flatten(segs.take(k))) + fields_bytes(segs[k]),
        fields_bytes(flatten(segs.take(0))) == Seq::<u8>::empty(),
        segs.take(segs.len() as int) == segs,
{
    assert(segs.take(k + 1).drop_last() =~= segs.take(k));
    lemma_fields_bytes_concat(flatten(segs.take(k)), segs[k]);
    assert(segs.take(0) =~= Seq::<Seq<SpecField>>::empty());
    assert(fields_bytes(Seq::<SpecField>::empty()) == Seq::<u8>::empty());
    assert(segs.take(segs.len() as int) =~= segs);
}

/// The bytes of one segment lie within those of the message.
pub proof fn lemma_flatten_len(segs: Seq<Seq<SpecField>>, i: int)
    requires
        0 <= i < segs.len(),
    ensures
        fields_bytes(segs[i]).len() <= fields_bytes(flatten(segs)).len(),
    decreases segs.len(),
{
    let n = segs.len();
    lemma_fields_bytes_concat(flatten(segs.drop_last()), segs.last());
    if i < n - 1 {
        lemma_flatten_len(segs.drop_last(), i);
    }
}

/// Each kind of segment has a single number.
pub broadcast proof fn lemma_all_in_segs(t: u32, b: Seq<u8>, v: u64, bs: Seq<Seq<u8>>, ob: Option<Seq<u8>>, ov: Option<u64>, vs: Seq<u64>)
    ensures
        #[trigger] all_in(seg_bytes(t, b), t, t),
        #[trigger] all_in(seg_varint(t, v), t, t),
        #[trigger] all_in(seg_rep_bytes(t, bs), t, t),
        #[trigger] all_in(seg_opt_bytes(t, ob), t, t),
        #[trigger] all_in(seg_opt_varint(t, ov), t, t),
        #[trigger] all_in(seg_packed(t, vs), t, t),
{
}

/// A bytes field, read back.
pub proof fn lemma_get_seg_bytes(t: u32, b: Seq<u8>)
    ensures
        get_bytes_spec(seg_bytes(t, b), t) == Some(b),
{
    lemma_tv_seg_bytes(t, b, t);
    if b.len() == 0 {
        lemma_len_zero_empty(b);
    } else {
        lemma_collect_single_bytes(b);
    }
}

/// A text field, read back.
pub proof fn lemma_get_seg_string(t: u32, s: Seq<char>)
    ensures
        get_string_spec(seg_bytes(t, encode_utf8(s)), t) == Some(s),
{
    lemma_get_seg_bytes(t, encode_utf8(s));
}

/// A varint field, read back.
pub proof fn lemma_get_seg_varint(t: u32, v: u64)
    ensures
        get_varint_spec(seg_varint(t, v), t) == Some(v),
{
    lemma_tv_seg_varint(t, v, t);
    if v != 0 {
        lemma_collect_single_varint(v);
    }
}

/// A repeated bytes field, read back.
pub proof fn lemma_get_seg_rep_bytes(t: u32, bs: Seq<Seq<u8>>)
    ensures
        get_rep_bytes_spec(seg_rep_bytes(t, bs), t) == Some(bs),
{
    lemma_tv_seg_rep_bytes(t, bs, t);
    lemma_collect_bytes_values(bs);
}

/// An optional bytes field, read back.
pub proof fn lemma_get_seg_opt_bytes(t: u32, o: Option<Seq<u8>>)
    ensures
        get_opt_bytes_spec(seg_opt_bytes(t, o), t) == Some(o),
{
    lemma_tv_seg_opt_bytes(t, o, t);
    if let Some(b) = o {
        lemma_collect_single_bytes(b);
    }
}

/// The encoding of an optional text value.
pub open spec fn opt_utf8(o: Option<Seq<char>>) -> Option<Seq<u8>> {
    match o {
        Some(s) => Some(encode_utf8(s)),
        None => None,
    }
}

/// An optional text field, read back.
pub proof fn lemma_get_seg_opt_string(t: u32, o: Option<Seq<char>>)
    ensures
        get_opt_string_spec(seg_opt_bytes(t, opt_utf8(o)), t) == Some(o),
{
    lemma_get_seg_opt_bytes(t, opt_utf8(o));
}

/// An optional varint field, read back.
pub proof fn lemma_get_seg_opt_varint(t: u32, o: Option<u64>)
    ensures
        get_opt_varint_spec(seg_opt_varint(t, o), t) == Some(o),
{
    lemma_tv_seg_opt_varint(t, o, t);
    if let Some(v) = o {
        lemma_collect_single_varint(v);
    }
}

/// A packed repeated field, read back.
pub proof fn lemma_get_seg_packed(t: u32, vs: Seq<u64>)
    ensures
        get_packed_spec(seg_packed(t, vs), t) == Some(vs),
{
    lemma_tv_seg_packed(t, vs, t);
    if vs.len() == 0 {
        lemma_len_zero_empty(vs);
    } else {
        lemma_collect_single_bytes(packed_bytes(vs));
        lemma_parse_packed(vs);
    }
}

/// The bytes of an optional bytes field hold its value.
pub proof fn lemma_seg_opt_bytes_len(t: u32, b: Seq<u8>)
    ensures
        b.len() <= fields_bytes(seg_opt_bytes(t, Some(b))).len(),
{
    lemma_fields_bytes_single(SpecField { tag: t, value: SpecValue::Bytes(b) });
}

/// The bytes of a repeated bytes field hold each of its values.
pub proof fn lemma_seg_rep_bytes_len(t: u32, bs: Seq<Seq<u8>>, j: int)
    requires
        0 <= j < bs.len(),
    ensures
        bs[j].len() <= fields_bytes(seg_rep_bytes(t, bs)).len(),
    decreases bs.len(),
{
    let fs = seg_rep_bytes(t, bs);
    assert(fs.drop_first() =~= seg_rep_bytes(t, bs.drop_first()));
    if j > 0 {
        lemma_seg_rep_bytes_len(t, bs.drop_first(), j - 1);
    }
}

/// Every field of the list has a length-delimited payload.
pub open spec fn all_bytes(fs: Seq<SpecField>) -> bool {
    forall|j: int| 0 <= j < fs.len() ==> (#[trigger] fs[j]).value is Bytes
}

/// A one-of field spread over numbers `lo` to `hi`: every field sent with
/// one of them must be length-delimited, and the last one sent decides.
pub open spec fn get_range_last_spec(fs: Seq<SpecField>, lo: u32, hi: u32) -> Option<Option<(u32, Seq<u8>)>> {
    let rf = range_fields(fs, lo, hi);
    if all_bytes(rf) {
        if rf.len() == 0 {
            Some(None)
        } else {
            match rf.last().value {
                SpecValue::Bytes(b) => Some(Some((rf.last().tag, b))),
                _ => None,
            }
        }
    } else {
        None
    }
}

proof fn lemma_range_step(fs: Seq<Field>, i: int, lo: u32, hi: u32)
    requires
        0 <= i < fs.len(),
    ensures
        range_fields(fields_view(fs).take(i + 1), lo, hi) == (if lo <= fs[i].tag <= hi {
            range_fields(fields_view(fs).take(i), lo, hi).push(fs[i]@)
        } else {
            range_fields(fields_view(fs).take(i), lo, hi)
        }),
{
    let fv = fields_view(fs);
    assert(fv.take(i + 1) =~= fv.take(i) + seq![fs[i]@]);
    lemma_range_fields_concat(fv.take(i), seq![fs[i]@], lo, hi);
    let e = seq![fs[i]@].drop_first();
    assert(e =~= Seq::<SpecField>::empty());
    assert(range_fields(e, lo, hi) == Seq::<SpecField>::empty());
    let a = range_fields(fv.take(i), lo, hi);
    assert(a + seq![fs[i]@] =~= a.push(fs[i]@));
    assert(a + Seq::<SpecField>::empty() =~= a);
}

/// Reads a one-of field spread over numbers `lo` to `hi`: the number and
/// payload of the last field sent with one of them.
pub fn get_range_last(fs: &Vec<Field>, lo: u32, hi: u32) -> (r: Result<Option<(u32, Vec<u8>)>, DecodeError>)
    ensures
        match get_range_last_spec(fields_view(fs@), lo, hi) {
            Some(Some((t, b))) => r matches Ok(Some((t2, x))) && t2 == t && x@ == b,
            Some(None) => r matches Ok(None),
            None => r is Err,
        },
{
    let ghost fv = fields_view(fs@);
    let mut cur: Option<(u32, Vec<u8>)> = None;
    let mut i: usize = 0;
    proof {
        assert(fv.take(0) =~= Seq::<SpecField>::empty());
    }
    while i < fs.len()
        invariant
            i <= fs@.len(),
            fv == fields_view(fs@),
            all_bytes(range_fields(fv.take(i as int), lo, hi)),
            ({
                let rf = range_fields(fv.take(i as int), lo, hi);
                if rf.len() == 0 {
                    cur is None
                } else {
                    cur matches Some((t, x)) && rf.last().tag == t && rf.last().value == SpecValue::Bytes(x@)
                }
            }),
        decreases fs@.len() - i,
    {
        proof { lemma_range_step(fs@, i as int, lo, hi); }
        let f = &fs[i];
        if lo <= f.tag && f.tag <= hi {
            match &f.value {
                WireValue::Bytes(b) => {
                    cur = Some((f.tag, vstd::slice::slice_to_vec(b.as_slice())));
                },
                _ => {
                    proof {
                        let rf = range_fields(fv.take(i as int + 1), lo, hi);
                        assert(rf.last().value !is Bytes);
                        assert(fv =~= fv.take(i as int + 1) + fv.skip(i as int + 1));
                        lemma_range_fields_concat(fv.take(i as int + 1), fv.skip(i as int + 1), lo, hi);
                        let whole = range_fields(fv, lo, hi);
                        assert(whole[rf.len() - 1] == rf[rf.len() - 1]);
                    }
                    return Err(DecodeError);
                },
            }
        }
        i = i + 1;
    }
    proof {
        assert(fv.take(fs@.len() as int) =~= fv);
    }
    Ok(cur)
}

/// A one-of field with its variant sent, read back.
pub proof fn lemma_get_range_single(t: u32, b: Seq<u8>, lo: u32, hi: u32)
    requires
        lo <= t <= hi,
    ensures
        get_range_last_spec(seq![SpecField { tag: t, value: SpecValue::Bytes(b) }], lo, hi) == Some(Some((t, b))),
        get_range_last_spec(Seq::<SpecField>::empty(), lo, hi) == Some(None::<(u32, Seq<u8>)>),
{
    let f = SpecField { tag: t, value: SpecValue::Bytes(b) };
    let e = seq![f].drop_first();
    assert(e =~= Seq::<SpecField>::empty());
    assert(range_fields(e, lo, hi) == Seq::<SpecField>::empty());
    assert(range_fields(seq![f], lo, hi) =~= seq![f]);
}

/// The views of a list of integers, as 64-bit patterns.
pub open spec fn i64s_bits(s: Seq<i64>) -> Seq<u64> {
    Seq::new(s.len(), |i: int| s[i] as u64)
}

/// The views of a list of flags, as 0 and 1.
pub open spec fn bools_bits(s: Seq<bool>) -> Seq<u64> {
    Seq::new(s.len(), |i: int| if s[i] { 1u64 } else { 0u64 })
}

/// The 64-bit patterns of a list of integers.
pub fn i64s_to_bits(v: &Vec<i64>) -> (r: Vec<u64>)
    ensures
        r@ == i64s_bits(v@),
{
    let mut r: Vec<u64> = Vec::new();
    let mut i: usize = 0;
    while i < v.len()
        invariant
            i <= v@.len(),
            r@ =~= i64s_bits(v@.take(i as int)),
        decreases v@.len() - i,
    {
        r.push(v[i] as u64);
        i = i + 1;
    }
    assert(v@.take(v@.len() as int) =~= v@);
    r
}

/// The integers of a list of 64-bit patterns.
pub fn bits_to_i64s(v: &Vec<u64>) -> (r: Vec<i64>)
    ensures
        r@ == Seq::new(v@.len(), |i: int| v@[i] as i64),
{
    let mut r: Vec<i64> = Vec::new();
    let mut i: usize = 0;
    while i < v.len()
        invariant
            i <= v@.len(),
            r@ =~= Seq::new(i as nat, |j: int| v@[j] as i64),
        decreases v@.len() - i,
    {
        r.push(v[i] as i64);
        i = i + 1;
    }
    r
}

/// The 0/1 values of a list of flags.
pub fn bools_to_bits(v: &Vec<bool>) -> (r: Vec<u64>)
    ensures
        r@ == bools_bits(v@),
{
    let mut r: Vec<u64> = Vec::new();
    let mut i: usize = 0;
    while i < v.len()
        invariant
            i <= v@.len(),
            r@ =~= bools_bits(v@.take(i as int)),
        decreases v@.len() - i,
    {
        r.push(if v[i] { 1u64 } else { 0u64 });
        i = i + 1;
    }
    assert(v@.take(v@.len() as int) =~= v@);
    r
}

/// The flags of a list of values: non-zero is true.
pub fn bits_to_bools(v: &Vec<u64>) -> (r: Vec<bool>)
    ensures
        r@ == Seq::new(v@.len(), |i: int| v@[i] != 0),
{
    let mut r: Vec<bool> = Vec::new();
    let mut i: usize = 0;
    while i < v.len()
        invariant
            i <= v@.len(),
            r@ =~= Seq::new(i as nat, |j: int| v@[j] != 0),
        decreases v@.len() - i,
    {
        r.push(v[i] != 0);
        i = i + 1;
    }
    r
}

/// Integers survive the trip through their bit patterns.
pub proof fn lemma_i64s_round_trip(s: Seq<i64>)
    ensures
        Seq::new(i64s_bits(s).len(), |i: int| i64s_bits(s)[i] as i64) == s,
{
    assert forall|i: int| 0 <= i < s.len() implies (#[trigger] i64s_bits(s)[i]) as i64 == s[i] by {
        lemma_i64_cast(s[i]);
    }
    assert(Seq::new(i64s_bits(s).len(), |i: int| i64s_bits(s)[i] as i64) =~= s);
}

/// Flags survive the trip through 0 and 1.
pub proof fn lemma_bools_round_trip(s: Seq<bool>)
    ensures
        Seq::new(bools_bits(s).len(), |i: int| bools_bits(s)[i] != 0) == s,
{
    assert(Seq::new(bools_bits(s).len(), |i: int| bools_bits(s)[i] != 0) =~= s);
}

} // verus!
