//! The protobuf wire format: varints, keys and fields.
//!
//! A message is a sequence of fields; a field is a key (the field number
//! and a wire type, as a varint) and a payload.

use vstd::prelude::*;
use vstd::bytes::*;

verus! {

/// The base-128 (LEB128) encoding of a natural number: seven bits per byte,
/// least significant group first, the high bit set on every byte but the
/// last.
pub open spec fn varint(v: nat) -> Seq<u8>
    decreases v,
{
    if v < 128 {
        seq![v as u8]
    } else {
        seq![(v % 128 + 128) as u8] + varint(v / 128)
    }
}

/// Reads a base-128 number at the start of `s`, using at most `fuel` bytes;
/// gives the value and the number of bytes read. Non-minimal encodings are
/// accepted.
pub open spec fn read_varint_fuel(s: Seq<u8>, fuel: nat) -> Option<(nat, nat)>
    decreases fuel,
{
    if fuel == 0 || s.len() == 0 {
        None
    } else if s[0] < 128 {
        Some((s[0] as nat, 1nat))
    } else {
        match read_varint_fuel(s.drop_first(), (fuel - 1) as nat) {
            Some((v, n)) => Some((((s[0] - 128) + 128 * v) as nat, n + 1)),
            None => None,
        }
    }
}

/// What a read consumes lies within the input and the fuel.
pub proof fn lemma_read_varint_fuel_bounds(s: Seq<u8>, fuel: nat)
    ensures
        read_varint_fuel(s, fuel) matches Some((_, n)) ==> 1 <= n <= fuel && n <= s.len(),
    decreases fuel,
{
    if fuel > 0 && s.len() > 0 && s[0] >= 128 {
        lemma_read_varint_fuel_bounds(s.drop_first(), (fuel - 1) as nat);
    }
}

/// A varint as the format allows it: at most ten bytes and a value that fits
/// in 64 bits.
pub open spec fn read_varint(s: Seq<u8>) -> Option<(u64, nat)> {
    match read_varint_fuel(s, 10) {
        Some((v, n)) => if v <= u64::MAX {
            Some((v as u64, n))
        } else {
            None
        },
        None => None,
    }
}

/// Powers of 128.
pub open spec fn pow128(k: nat) -> nat
    decreases k,
{
    if k == 0 {
        1
    } else {
        128 * pow128((k - 1) as nat)
    }
}

proof fn lemma_varint_len_bound(v: nat, k: nat)
    requires
        k >= 1,
        v < pow128(k),
    ensures
        varint(v).len() <= k,
        varint(v).len() >= 1,
    decreases v,
{
    if v >= 128 {
        assert(k >= 2) by {
            if k == 1 {
                assert(pow128(1) == 128) by { reveal_with_fuel(pow128, 2); }
            }
        }
        assert(v / 128 < pow128((k - 1) as nat)) by {
            assert(pow128(k) == 128 * pow128((k - 1) as nat));
        }
        lemma_varint_len_bound(v / 128, (k - 1) as nat);
    }
}

/// Every 64-bit value takes between one and ten bytes.
pub proof fn lemma_varint_len(v: u64)
    ensures
        1 <= varint(v as nat).len() <= 10,
{
    assert(pow128(10) == 0x400000000000000000) by {
        reveal_with_fuel(pow128, 11);
    }
    lemma_varint_len_bound(v as nat, 10);
}

proof fn lemma_read_varint_fuel(v: nat, rest: Seq<u8>, fuel: nat)
    requires
        fuel >= varint(v).len(),
    ensures
        read_varint_fuel(varint(v) + rest, fuel) == Some((v, varint(v).len())),
    decreases v,
{
    let s = varint(v) + rest;
    if v < 128 {
        assert(s[0] == v as u8);
    } else {
        assert(varint(v).len() == 1 + varint(v / 128).len());
        assert(s.drop_first() =~= varint(v / 128) + rest);
        lemma_read_varint_fuel(v / 128, rest, (fuel - 1) as nat);
        assert(s[0] == (v % 128 + 128) as u8);
    }
}

/// Reading back an encoded 64-bit value gives the value and the length of
/// its encoding, whatever follows it.
pub proof fn lemma_read_varint(v: u64, rest: Seq<u8>)
    ensures
        read_varint(varint(v as nat) + rest) == Some((v, varint(v as nat).len())),
{
    lemma_varint_len(v);
    lemma_read_varint_fuel(v as nat, rest, 10);
}

/// Appends the base-128 encoding of `v`.
pub(crate) fn put_varint(v: u64, buf: &mut Vec<u8>)
    ensures
        final(buf)@ == old(buf)@ + varint(v as nat),
{
    let ghost start = buf@;
    let mut rest = v;
    while rest >= 128
        invariant
            buf@ + varint(rest as nat) == start + varint(v as nat),
        decreases rest,
    {
        let ghost before = buf@;
        buf.push((rest % 128 + 128) as u8);
        proof {
            assert(varint(rest as nat) == seq![(rest % 128 + 128) as u8] + varint((rest / 128) as nat));
            assert(buf@ + varint((rest / 128) as nat) =~= before + varint(rest as nat));
        }
        rest = rest / 128;
    }
    let ghost before = buf@;
    buf.push(rest as u8);
    proof {
        assert(varint(rest as nat) == seq![rest as u8]);
        assert(buf@ =~= before + varint(rest as nat));
    }
}

/// Reads a varint at position `pos`, with at most `fuel` bytes.
fn read_varint_at(s: &[u8], pos: usize, fuel: u8) -> (r: Option<(u64, usize)>)
    requires
        pos <= s@.len(),
        fuel <= 10,
    ensures
        r == (match read_varint_fuel(s@.skip(pos as int), fuel as nat) {
            Some((v, n)) => if v <= u64::MAX {
                Some((v as u64, n as usize))
            } else {
                None
            },
            None => None,
        }),
        r matches Some((_, n)) ==> 1 <= n && pos + n <= s@.len(),
    decreases fuel,
{
    let ghost t = s@.skip(pos as int);
    proof {
        lemma_read_varint_fuel_bounds(t, fuel as nat);
    }
    if fuel == 0 || pos >= s.len() {
        return None;
    }
    let b = s[pos];
    assert(t[0] == b);
    if b < 128 {
        return Some((b as u64, 1));
    }
    assert(t.drop_first() =~= s@.skip(pos + 1));
    match read_varint_at(s, pos + 1, fuel - 1) {
        None => {
            proof {
                match read_varint_fuel(t.drop_first(), (fuel - 1) as nat) {
                    Some((v, n)) => {
                        assert(((b - 128) + 128 * v) as nat > u64::MAX);
                    },
                    None => {},
                }
            }
            None
        },
        Some((v, n)) => {
            let low = (b - 128) as u64;
            if v > (u64::MAX - low) / 128 {
                None
            } else {
                Some((low + 128 * v, n + 1))
            }
        },
    }
}

/// Reads a varint at position `pos`: its value and length.
pub fn decode_varint_at(s: &[u8], pos: usize) -> (r: Option<(u64, usize)>)
    requires
        pos <= s@.len(),
    ensures
        r == (match read_varint(s@.skip(pos as int)) {
            Some((v, n)) => Some((v, n as usize)),
            None => None,
        }),
        r matches Some((_, n)) ==> 1 <= n && pos + n <= s@.len(),
        r matches Some((v, n)) ==> read_varint(s@.skip(pos as int)) == Some((v, n as nat)),
        r is None ==> read_varint(s@.skip(pos as int)) is None,
{
    proof {
        lemma_read_varint_fuel_bounds(s@.skip(pos as int), 10);
    }
    read_varint_at(s, pos, 10)
}

/// A field's payload, by wire type.
#[derive(Clone, Debug, PartialEq, Eq)]
pub enum WireValue {
    /// Wire type 0.
    Varint(u64),
    /// Wire type 1: eight bytes, little-endian.
    Fixed64(u64),
    /// Wire type 2: a length, then that many bytes.
    Bytes(Vec<u8>),
    /// Wire type 5: four bytes, little-endian.
    Fixed32(u32),
}

/// A field: its number and its payload.
#[derive(Clone, Debug, PartialEq, Eq)]
pub struct Field {
    pub tag: u32,
    pub value: WireValue,
}

/// The mathematical form of a payload.
pub enum SpecValue {
    Varint(u64),
    Fixed64(u64),
    Bytes(Seq<u8>),
    Fixed32(u32),
}

/// The mathematical form of a field.
pub struct SpecField {
    pub tag: u32,
    pub value: SpecValue,
}

impl View for WireValue {
    type V = SpecValue;

    open spec fn view(&self) -> SpecValue {
        match self {
            WireValue::Varint(v) => SpecValue::Varint(*v),
            WireValue::Fixed64(v) => SpecValue::Fixed64(*v),
            WireValue::Bytes(b) => SpecValue::Bytes(b@),
            WireValue::Fixed32(v) => SpecValue::Fixed32(*v),
        }
    }
}

impl View for Field {
    type V = SpecField;

    open spec fn view(&self) -> SpecField {
        SpecField { tag: self.tag, value: self.value@ }
    }
}

/// The fields of a list, each by its view.
pub open spec fn fields_view(fs: Seq<Field>) -> Seq<SpecField> {
    Seq::new(fs.len(), |i: int| fs[i]@)
}

/// The wire type that a payload is sent with.
pub open spec fn wire_type(v: SpecValue) -> nat {
    match v {
        SpecValue::Varint(_) => 0,
        SpecValue::Fixed64(_) => 1,
        SpecValue::Bytes(_) => 2,
        SpecValue::Fixed32(_) => 5,
    }
}

/// The bytes of a payload.
pub open spec fn payload_bytes(v: SpecValue) -> Seq<u8> {
    match v {
        SpecValue::Varint(x) => varint(x as nat),
        SpecValue::Fixed64(x) => spec_u64_to_le_bytes(x),
        SpecValue::Bytes(b) => varint(b.len()) + b,
        SpecValue::Fixed32(x) => spec_u32_to_le_bytes(x),
    }
}

/// The key of a field: its number shifted left by three, or'ed with the
/// wire type.
pub open spec fn field_key(f: SpecField) -> nat {
    (f.tag as nat) * 8 + wire_type(f.value)
}

/// The bytes of one field.
pub open spec fn field_bytes(f: SpecField) -> Seq<u8> {
    varint(field_key(f)) + payload_bytes(f.value)
}

/// The bytes of a list of fields, one after the other.
pub open spec fn fields_bytes(fs: Seq<SpecField>) -> Seq<u8>
    decreases fs.len(),
{
    if fs.len() == 0 {
        Seq::empty()
    } else {
        field_bytes(fs[0]) + fields_bytes(fs.drop_first())
    }
}

/// Fields that the format can carry: a number between 1 and 2^29 - 1, and a
/// byte payload whose length fits in 64 bits.
pub open spec fn field_ok(f: SpecField) -> bool {
    &&& 1 <= f.tag < 0x2000_0000
    &&& (f.value matches SpecValue::Bytes(b) ==> b.len() <= u64::MAX)
}

/// Reads the payload of wire type `wt` at the start of `s`.
pub open spec fn parse_payload(wt: nat, s: Seq<u8>) -> Option<(SpecValue, nat)> {
    if wt == 0 {
        match read_varint(s) {
            Some((v, m)) => Some((SpecValue::Varint(v), m)),
            None => None,
        }
    } else if wt == 1 {
        if s.len() >= 8 {
            Some((SpecValue::Fixed64(spec_u64_from_le_bytes(s.take(8))), 8nat))
        } else {
            None
        }
    } else if wt == 2 {
        match read_varint(s) {
            Some((len, m)) => if m + len <= s.len() {
                Some((SpecValue::Bytes(s.subrange(m as int, m + len)), (m + len) as nat))
            } else {
                None
            },
            None => None,
        }
    } else if wt == 5 {
        if s.len() >= 4 {
            Some((SpecValue::Fixed32(spec_u32_from_le_bytes(s.take(4))), 4nat))
        } else {
            None
        }
    } else {
        None
    }
}

/// Reads one field at the start of `s`: the field and the number of bytes
/// it takes. The key must fit in 32 bits and name a field number of at least
/// one; wire types 3, 4, 6 and 7 are refused.
pub open spec fn parse_field(s: Seq<u8>) -> Option<(SpecField, nat)> {
    match read_varint(s) {
        None => None,
        Some((k, n)) => if k > u32::MAX || k / 8 == 0 {
            None
        } else {
            match parse_payload((k % 8) as nat, s.skip(n as int)) {
                Some((v, m)) => Some((SpecField { tag: (k / 8) as u32, value: v }, n + m)),
                None => None,
            }
        },
    }
}

/// Reads fields until the input ends.
pub open spec fn parse_fields(s: Seq<u8>) -> Option<Seq<SpecField>>
    decreases s.len(),
{
    if s.len() == 0 {
        Some(Seq::empty())
    } else {
        match parse_field(s) {
            Some((f, n)) => if 0 < n <= s.len() {
                match parse_fields(s.skip(n as int)) {
                    Some(rest) => Some(seq![f] + rest),
                    None => None,
                }
            } else {
                None
            },
            None => None,
        }
    }
}

/// Reading back one encoded field gives the field, whatever follows it.
pub proof fn lemma_parse_field(f: SpecField, rest: Seq<u8>)
    requires
        field_ok(f),
    ensures
        parse_field(field_bytes(f) + rest) == Some((f, field_bytes(f).len())),
{
    let k = field_key(f);
    assert(k <= u64::MAX);
    let s = field_bytes(f) + rest;
    assert(s =~= varint(k) + (payload_bytes(f.value) + rest));
    lemma_read_varint(k as u64, payload_bytes(f.value) + rest);
    let n = varint(k).len();
    assert(s.skip(n as int) =~= payload_bytes(f.value) + rest);
    assert(k / 8 == f.tag as nat);
    assert(k % 8 == wire_type(f.value));
    let t = payload_bytes(f.value) + rest;
    match f.value {
        SpecValue::Varint(x) => {
            lemma_read_varint(x, rest);
        },
        SpecValue::Fixed64(x) => {
            lemma_auto_spec_u64_to_from_le_bytes();
            assert(t.take(8) =~= spec_u64_to_le_bytes(x));
        },
        SpecValue::Bytes(b) => {
            lemma_read_varint(b.len() as u64, b + rest);
            assert(t =~= varint(b.len()) + (b + rest));
            let m = varint(b.len()).len();
            assert(t.subrange(m as int, (m + b.len()) as int) =~= b);
        },
        SpecValue::Fixed32(x) => {
            lemma_auto_spec_u32_to_from_le_bytes();
            assert(t.take(4) =~= spec_u32_to_le_bytes(x));
        },
    }
}

/// Every field number of the list lies between 1 and 2^29 - 1.
pub open spec fn tags_ok(fs: Seq<SpecField>) -> bool {
    forall|i: int| 0 <= i < fs.len() ==> 1 <= #[trigger] fs[i].tag < 0x2000_0000
}

proof fn lemma_payload_len_bound(fs: Seq<SpecField>)
    ensures
        forall|i: int| 0 <= i < fs.len() ==> (#[trigger] fs[i].value matches SpecValue::Bytes(b)
            ==> b.len() <= fields_bytes(fs).len()),
    decreases fs.len(),
{
    if fs.len() > 0 {
        lemma_payload_len_bound(fs.drop_first());
        assert forall|i: int| 0 <= i < fs.len() implies (#[trigger] fs[i].value matches SpecValue::Bytes(b)
            ==> b.len() <= fields_bytes(fs).len()) by {
            if i > 0 {
                assert(fs[i] == fs.drop_first()[i - 1]);
            }
        }
    }
}

/// Reading back encoded fields gives the same fields.
pub proof fn lemma_parse_fields(fs: Seq<SpecField>)
    requires
        tags_ok(fs),
        fields_bytes(fs).len() <= u64::MAX,
    ensures
        parse_fields(fields_bytes(fs)) == Some(fs),
    decreases fs.len(),
{
    if fs.len() > 0 {
        let s = fields_bytes(fs);
        let first = field_bytes(fs[0]);
        lemma_payload_len_bound(fs);
        assert(field_ok(fs[0]));
        lemma_parse_field(fs[0], fields_bytes(fs.drop_first()));
        assert(first.len() > 0) by {
            lemma_varint_len_pos(field_key(fs[0]));
        }
        assert(s.skip(first.len() as int) =~= fields_bytes(fs.drop_first()));
        assert(tags_ok(fs.drop_first())) by {
            assert forall|i: int| 0 <= i < fs.drop_first().len() implies 1 <= #[trigger] fs.drop_first()[i].tag < 0x2000_0000 by {
                assert(fs.drop_first()[i] == fs[i + 1]);
            }
        }
        lemma_parse_fields(fs.drop_first());
        assert(seq![fs[0]] + fs.drop_first() =~= fs);
    }
}

proof fn lemma_varint_len_pos(v: nat)
    ensures
        varint(v).len() >= 1,
    decreases v,
{
    if v >= 128 {
        lemma_varint_len_pos(v / 128);
    }
}

/// The bytes of two lists of fields, one after the other.
pub proof fn lemma_fields_bytes_concat(a: Seq<SpecField>, b: Seq<SpecField>)
    ensures
        fields_bytes(a + b) == fields_bytes(a) + fields_bytes(b),
    decreases a.len(),
{
    if a.len() == 0 {
        assert(a + b =~= b);
        assert(fields_bytes(a) =~= Seq::<u8>::empty());
        assert(fields_bytes(a) + fields_bytes(b) =~= fields_bytes(b));
    } else {
        assert((a + b).drop_first() =~= a.drop_first() + b);
        lemma_fields_bytes_concat(a.drop_first(), b);
        assert(fields_bytes(a + b) =~= field_bytes(a[0]) + (fields_bytes(a.drop_first()) + fields_bytes(b)));
    }
}

/// The bytes of a single field.
pub proof fn lemma_fields_bytes_single(f: SpecField)
    ensures
        fields_bytes(seq![f]) == field_bytes(f),
{
    let e = seq![f].drop_first();
    assert(e =~= Seq::<SpecField>::empty());
    assert(e.len() == 0);
    assert(fields_bytes(e) == Seq::<u8>::empty());
    assert(field_bytes(f) + Seq::<u8>::empty() =~= field_bytes(f));
}

/// Appends a varint field.
pub fn put_varint_field(buf: &mut Vec<u8>, tag: u32, v: u64)
    requires
        1 <= tag < 0x2000_0000,
    ensures
        final(buf)@ == old(buf)@ + field_bytes(SpecField { tag, value: SpecValue::Varint(v) }),
{
    let ghost start = buf@;
    put_varint((tag as u64) * 8, buf);
    put_varint(v, buf);
    assert(final(buf)@ =~= start + field_bytes(SpecField { tag, value: SpecValue::Varint(v) }));
}

/// Appends a length-delimited field.
pub fn put_bytes_field(buf: &mut Vec<u8>, tag: u32, b: &[u8])
    requires
        1 <= tag < 0x2000_0000,
    ensures
        final(buf)@ == old(buf)@ + field_bytes(SpecField { tag, value: SpecValue::Bytes(b@) }),
{
    let ghost start = buf@;
    put_varint((tag as u64) * 8 + 2, buf);
    put_varint(b.len() as u64, buf);
    let mut i: usize = 0;
    let ghost mid = buf@;
    while i < b.len()
        invariant
            i <= b@.len(),
            buf@ =~= mid + b@.subrange(0, i as int),
        decreases b@.len() - i,
    {
        buf.push(b[i]);
        i = i + 1;
    }
    assert(final(buf)@ =~= start + field_bytes(SpecField { tag, value: SpecValue::Bytes(b@) }));
}

/// A byte string that is not a message of the expected type: its fields are
/// malformed, a known field came with a wire type other than its own, or a
/// text field holds bytes that are not UTF-8.
#[derive(Clone, Copy, Debug, PartialEq, Eq)]
pub struct DecodeError;


/// Reads the payload of wire type `wt` at position `p`.
fn decode_payload(s: &[u8], p: usize, wt: u64) -> (r: Option<(WireValue, usize)>)
    requires
        p <= s@.len(),
    ensures
        r matches Some((v, m)) ==> parse_payload(wt as nat, s@.skip(p as int)) == Some((v@, m as nat))
            && p + m <= s@.len(),
        r is None ==> parse_payload(wt as nat, s@.skip(p as int)) is None,
{
    let ghost u = s@.skip(p as int);
    let (value, m): (WireValue, usize) = if wt == 0 {
            match decode_varint_at(s, p) {
                Some((v, m)) => {
                    assert(parse_payload(wt as nat, u) == Some((SpecValue::Varint(v), m as nat)));
                    (WireValue::Varint(v), m)
                },
                None => { return None; },
            }
        } else if wt == 1 {
            if s.len() - p < 8 {
                return None;
            }
            assert(u.take(8) =~= s@.subrange(p as int, p + 8));
            let x = u64_from_le_bytes(crate::ids::slice_subrange(s, p, p + 8));
            assert(parse_payload(wt as nat, u) == Some((SpecValue::Fixed64(x), 8nat)));
            (WireValue::Fixed64(x), 8)
        } else if wt == 2 {
            match decode_varint_at(s, p) {
                Some((len, m)) => {
                    if len > (s.len() - p - m) as u64 {
                        return None;
                    }
                    let lenu = len as usize;
                    let b = crate::ids::slice_subrange(s, p + m, p + m + lenu);
                    assert(u.subrange(m as int, m + lenu) =~= s@.subrange(p + m, p + m + lenu));
                    let bv = vstd::slice::slice_to_vec(b);
                    assert(parse_payload(wt as nat, u) == Some((SpecValue::Bytes(bv@), (m + lenu) as nat)));
                    (WireValue::Bytes(bv), m + lenu)
                },
                None => { return None; },
            }
        } else if wt == 5 {
            if s.len() - p < 4 {
                return None;
            }
            assert(u.take(4) =~= s@.subrange(p as int, p + 4));
            let x = u32_from_le_bytes(crate::ids::slice_subrange(s, p, p + 4));
            assert(parse_payload(wt as nat, u) == Some((SpecValue::Fixed32(x), 4nat)));
            (WireValue::Fixed32(x), 4)
        } else {
            return None;
        };
    Some((value, m))
}

/// Reads all fields of `s`.
pub fn decode_fields(s: &[u8]) -> (r: Option<Vec<Field>>)
    ensures
        r matches Some(fs) ==> parse_fields(s@) == Some(fields_view(fs@)),
        r is None ==> parse_fields(s@) is None,
{
    let mut out: Vec<Field> = Vec::new();
    let mut pos: usize = 0;
    proof {
        assert(s@.skip(0) =~= s@);
        assert(fields_view(out@) =~= Seq::<SpecField>::empty());
        match parse_fields(s@) {
            Some(rest) => {
                assert(fields_view(out@) + rest =~= rest);
            },
            None => {},
        }
    }
    while pos < s.len()
        invariant
            pos <= s@.len(),
            parse_fields(s@) == (match parse_fields(s@.skip(pos as int)) {
                Some(rest) => Some(fields_view(out@) + rest),
                None => None,
            }),
        decreases s@.len() - pos,
    {
        let ghost t = s@.skip(pos as int);
        let (key, n) = match decode_varint_at(s, pos) {
            Some(kn) => kn,
            None => { return None; },
        };
        if key > 0xffff_ffff || key / 8 == 0 {
            return None;
        }
        let tag = (key / 8) as u32;
        let wt = key % 8;
        let p = pos + n;
        assert(t.skip(n as int) =~= s@.skip(p as int));
        let (value, m) = match decode_payload(s, p, wt) {
            Some(vm) => vm,
            None => { return None; },
        };
        let f = Field { tag, value };
        proof {
            assert(parse_payload(wt as nat, s@.skip(p as int)) == Some((f@.value, m as nat)));
            assert(parse_field(t) == Some((f@, (n + m) as nat)));
            assert(t.skip((n + m) as int) =~= s@.skip((p + m) as int));
            assert(fields_view(out@.push(f)) =~= fields_view(out@) + seq![f@]);
            match parse_fields(s@.skip((p + m) as int)) {
                Some(rest) => {
                    assert(fields_view(out@) + (seq![f@] + rest) =~= fields_view(out@.push(f)) + rest);
                },
                None => {},
            }
        }
        out.push(f);
        pos = p + m;
    }
    proof {
        assert(s@.skip(pos as int) =~= Seq::<u8>::empty());
        assert(fields_view(out@) + Seq::<SpecField>::empty() =~= fields_view(out@));
    }
    Some(out)
}

} // verus!
