//! Chunks of a fetch response.

use vstd::prelude::*;
use vstd::utf8::*;
use crate::wire::{{decode_fields, fields_bytes, lemma_parse_fields, parse_fields, DecodeError, SpecField, SpecValue}};
use crate::codec::{{
    bits_to_bools, bits_to_i64s, bools_bits, bools_to_bits, bytes_list_view, flatten,
    get_bytes, get_bytes_spec, get_opt_bytes, get_opt_bytes_spec, get_opt_string, get_opt_string_spec,
    get_opt_varint, get_opt_varint_spec, get_packed, get_packed_spec, get_range_last, get_range_last_spec,
    get_rep_bytes, get_rep_bytes_spec, get_string, get_string_spec, get_varint, get_varint_spec,
    i64s_bits, i64s_to_bits, lemma_all_in_segs, lemma_bools_round_trip, lemma_flatten_len,
    lemma_flatten_range, lemma_flatten_tag, lemma_flatten_tags_ok, lemma_flatten_take,
    lemma_get_range_single, lemma_get_seg_bytes, lemma_get_seg_opt_bytes, lemma_get_seg_opt_string,
    lemma_get_seg_opt_varint, lemma_get_seg_packed, lemma_get_seg_rep_bytes, lemma_get_seg_string,
    lemma_get_seg_varint, lemma_i32_cast, lemma_i64_cast, lemma_i64s_round_trip, lemma_seg_opt_bytes_len,
    lemma_seg_rep_bytes_len, lemma_u32_cast, opt_i64_bits, opt_utf8, put_bytes_seg, put_oneof_field,
    put_opt_bytes_seg, put_opt_varint_seg, put_packed_seg, put_rep_bytes_seg, put_string_seg,
    put_varint_seg, range_fields, all_in, segs_ok, seg_bytes, seg_opt_bytes, seg_opt_varint, seg_packed,
    seg_rep_bytes, seg_varint, simple_ranges, utf8_to_string,
}};

verus! {

/// A chunk in a fetch response.
#[derive(Clone, Debug, PartialEq, Eq)]
pub struct Chunk {
    /// Content id of the chunk.
    pub cid: Vec<u8>,
    /// Encrypted chunk data.
    pub data: Vec<u8>,
}

/// The mathematical form of a [`Chunk`].
pub struct ChunkView {
    pub cid: Seq<u8>,
    pub data: Seq<u8>,
}

impl View for Chunk {
    type V = ChunkView;

    open spec fn view(&self) -> ChunkView {
        ChunkView {
            cid: self.cid@,
            data: self.data@,
        }
    }
}

/// The fields that a [`Chunk`] is sent as, by field.
pub open spec fn chunk_segs(m: ChunkView) -> Seq<Seq<SpecField>> {
    seq![
        seg_bytes(1, m.cid),
        seg_bytes(2, m.data),
    ]
}

/// The field numbers of the parts of a [`Chunk`].
pub open spec fn chunk_ranges() -> Seq<(u32, u32)> {
    simple_ranges(2)
}

/// The encoding of a [`Chunk`].
pub open spec fn chunk_encoding(m: ChunkView) -> Seq<u8> {
    fields_bytes(flatten(chunk_segs(m)))
}

/// The [`Chunk`] that a list of fields describes, if any.
pub open spec fn chunk_from_fields(fs: Seq<SpecField>) -> Option<ChunkView> {
    match get_bytes_spec(fs, 1) {
        Some(x) => { let v0 = x; match get_bytes_spec(fs, 2) {
        Some(x) => { let v1 = x; Some(ChunkView { cid: v0, data: v1 }) },
        None => None,
    } },
        None => None,
    }
}

/// The [`Chunk`] that bytes encode, if any.
pub open spec fn chunk_decoding(b: Seq<u8>) -> Option<ChunkView> {
    match parse_fields(b) {
        Some(fs) => chunk_from_fields(fs),
        None => None,
    }
}

/// Decoding an encoded [`Chunk`] gives it back.
pub proof fn lemma_chunk_round_trip(m: ChunkView)
    requires
        chunk_encoding(m).len() <= u64::MAX,
    ensures
        chunk_decoding(chunk_encoding(m)) == Some(m),
{
    broadcast use lemma_all_in_segs;
    let segs = chunk_segs(m);
    let ranges = chunk_ranges();
    assert forall|k: int| 0 <= k < segs.len() implies all_in(#[trigger] segs[k], ranges[k].0, ranges[k].1) by {
        if k == 0 { } else if k == 1 { }
    }
    assert(segs_ok(segs, ranges));
    lemma_flatten_tags_ok(segs, ranges);
    lemma_parse_fields(flatten(segs));

    lemma_flatten_tag(segs, ranges, 0, 1); lemma_get_seg_bytes(1, m.cid);
    lemma_flatten_tag(segs, ranges, 1, 2); lemma_get_seg_bytes(2, m.data);
}

impl Chunk {
    /// Encodes the message.
    pub fn encode_to_vec(&self) -> (r: Vec<u8>)
        ensures
            r@ == chunk_encoding(self@),
    {
        let ghost segs = chunk_segs(self@);
        let mut buf: Vec<u8> = Vec::new();
        proof { lemma_flatten_take(segs, 0); }
        put_bytes_seg(&mut buf, 1, self.cid.as_slice());
        proof { lemma_flatten_take(segs, 0); }
        assert(buf@ =~= fields_bytes(flatten(segs.take(1))));
        put_bytes_seg(&mut buf, 2, self.data.as_slice());
        proof { lemma_flatten_take(segs, 1); }
        assert(buf@ =~= fields_bytes(flatten(segs.take(2))));
        buf
    }

    /// Decodes a message.
    pub fn decode(buf: &[u8]) -> (r: Result<Chunk, DecodeError>)
        ensures
            match chunk_decoding(buf@) {
                Some(v) => r matches Ok(m) && m@ == v,
                None => r is Err,
            },
    {
        let fs = match decode_fields(buf) {
            Some(fs) => fs,
            None => { return Err(DecodeError); },
        };
        let cid = get_bytes(&fs, 1)?;
        let data = get_bytes(&fs, 2)?;
        Ok(Chunk { cid, data })
    }
}

/// The encodings of a list of [`Chunk`] messages.
pub open spec fn chunk_encodings(ms: Seq<ChunkView>) -> Seq<Seq<u8>> {
    Seq::new(ms.len(), |i: int| chunk_encoding(ms[i]))
}

/// The [`Chunk`] messages that a list of byte strings encode, if each does.
pub open spec fn chunk_decode_all(bs: Seq<Seq<u8>>) -> Option<Seq<ChunkView>>
    decreases bs.len(),
{
    if bs.len() == 0 {
        Some(Seq::empty())
    } else {
        match chunk_decoding(bs[0]) {
            Some(x) => match chunk_decode_all(bs.drop_first()) {
                Some(r) => Some(seq![x] + r),
                None => None,
            },
            None => None,
        }
    }
}

/// Decoding encoded [`Chunk`] messages gives them back.
pub proof fn lemma_chunk_decode_all(ms: Seq<ChunkView>)
    requires
        forall|j: int| 0 <= j < ms.len() ==> #[trigger] chunk_encoding(ms[j]).len() <= u64::MAX,
    ensures
        chunk_decode_all(chunk_encodings(ms)) == Some(ms),
    decreases ms.len(),
{
    if ms.len() > 0 {
        assert(chunk_encoding(ms[0]).len() <= u64::MAX);
        lemma_chunk_round_trip(ms[0]);
        assert(chunk_encodings(ms).drop_first() =~= chunk_encodings(ms.drop_first()));
        assert forall|j: int| 0 <= j < ms.drop_first().len() implies #[trigger] chunk_encoding(ms.drop_first()[j]).len() <= u64::MAX by {
            assert(ms.drop_first()[j] == ms[j + 1]);
        }
        lemma_chunk_decode_all(ms.drop_first());
        assert(seq![ms[0]] + ms.drop_first() =~= ms);
    } else {
        assert(ms =~= Seq::<ChunkView>::empty());
    }
}

/// Encodes each message of a list.
pub fn chunk_encode_all_exec(v: &Vec<Chunk>) -> (r: Vec<Vec<u8>>)
    ensures
        bytes_list_view(r@) == chunk_encodings(Seq::new(v@.len(), |j: int| v@[j]@)),
{
    let mut r: Vec<Vec<u8>> = Vec::new();
    let mut i: usize = 0;
    while i < v.len()
        invariant
            i <= v@.len(),
            r@.len() == i,
            forall|j: int| 0 <= j < i ==> #[trigger] r@[j]@ == chunk_encoding(v@[j]@),
        decreases v@.len() - i,
    {
        let e = v[i].encode_to_vec();
        r.push(e);
        i = i + 1;
    }
    assert(bytes_list_view(r@) =~= chunk_encodings(Seq::new(v@.len(), |j: int| v@[j]@)));
    r
}

/// Decodes each byte string of a list.
pub fn chunk_decode_all_exec(bs: &Vec<Vec<u8>>) -> (r: Result<Vec<Chunk>, DecodeError>)
    ensures
        match chunk_decode_all(bytes_list_view(bs@)) {
            Some(ms) => r matches Ok(v) && Seq::new(v@.len(), |j: int| v@[j]@) == ms,
            None => r is Err,
        },
{
    let ghost bl = bytes_list_view(bs@);
    let mut out: Vec<Chunk> = Vec::new();
    let mut i: usize = 0;
    proof {
        assert(bl.skip(0) =~= bl);
        match chunk_decode_all(bl) {
            Some(rest) => { assert(Seq::new(out@.len(), |j: int| out@[j]@) + rest =~= rest); },
            None => {},
        }
    }
    while i < bs.len()
        invariant
            i <= bs@.len(),
            bl == bytes_list_view(bs@),
            chunk_decode_all(bl) == (match chunk_decode_all(bl.skip(i as int)) {
                Some(rest) => Some(Seq::new(out@.len(), |j: int| out@[j]@) + rest),
                None => None,
            }),
        decreases bs@.len() - i,
    {
        let ghost t = bl.skip(i as int);
        proof {
            assert(t[0] == bs@[i as int]@);
            assert(t.drop_first() =~= bl.skip(i + 1));
        }
        let x = Chunk::decode(bs[i].as_slice())?;
        proof {
            let before = Seq::new(out@.len(), |j: int| out@[j]@);
            match chunk_decode_all(bl.skip(i + 1)) {
                Some(rest) => {
                    assert(before + (seq![x@] + rest) =~= Seq::new(out@.len() + 1, |j: int| out@.push(x)[j]@) + rest);
                },
                None => {},
            }
        }
        out.push(x);
        i = i + 1;
    }
    proof {
        assert(bl.skip(bs@.len() as int) =~= Seq::<Seq<u8>>::empty());
        assert(Seq::new(out@.len(), |j: int| out@[j]@) + Seq::<ChunkView>::empty() =~= Seq::new(out@.len(), |j: int| out@[j]@));
    }
    Ok(out)
}

} // verus!
