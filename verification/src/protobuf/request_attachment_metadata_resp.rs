//! Attachment metadata in a response.

use vstd::prelude::*;
use vstd::utf8::*;
use crate::wire::{{decode_fields, fields_bytes, lemma_parse_fields, parse_fields, DecodeError, SpecField, SpecValue}};
use crate::codec::{{
    bits_to_bools, bits_to_i64s, bools_bits, bools_to_bits, bytes_list_view, flatten,
    get_bytes, get_bytes_spec, get_opt_bytes, get_opt_bytes_spec, get_opt_string, get_opt_string_spec,
    get_opt_varint, get_opt_varint_spec, get_packed, get_packed_spec, get_range_last, get_range_last_spec,
    get_rep_bytes, get_rep_bytes_spec, get_string, get_string_spec, get_varint, get_varint_spec,
    i64s_bits, i64s_to_bits, lemma_all_in_segs, lemma_bools_round_trip, lemma_flatten_len,
    lemma_flatten_range, lemma_flatten_tag, lemma_flatten_tags_ok, lemma_flatten_take,
    lemma_get_range_single, lemma_get_seg_bytes, lemma_get_seg_opt_bytes, lemma_get_seg_opt_string,
    lemma_get_seg_opt_varint, lemma_get_seg_packed, lemma_get_seg_rep_bytes, lemma_get_seg_string,
    lemma_get_seg_varint, lemma_i32_cast, lemma_i64_cast, lemma_i64s_round_trip, lemma_seg_opt_bytes_len,
    lemma_seg_rep_bytes_len, lemma_u32_cast, opt_i64_bits, opt_utf8, put_bytes_seg, put_oneof_field,
    put_opt_bytes_seg, put_opt_varint_seg, put_packed_seg, put_rep_bytes_seg, put_string_seg,
    put_varint_seg, range_fields, all_in, segs_ok, seg_bytes, seg_opt_bytes, seg_opt_varint, seg_packed,
    seg_rep_bytes, seg_varint, simple_ranges, utf8_to_string,
}};

verus! {

/// Attachment metadata, for synchronisation.
#[derive(Clone, Debug, PartialEq, Eq)]
pub struct AttachmentMetadata {
    /// Attachment id.
    pub id: i64,
    /// Id of the message that the attachment belongs to.
    pub message_id: Vec<u8>,
    /// File name.
    pub filename: String,
    /// File size in bytes.
    pub size: u64,
    /// BLAKE3 hash of the whole file, for deduplication.
    pub file_hash: Vec<u8>,
    /// MIME type.
    pub mime_type: Option<String>,
    /// Status: 0 active, 1 deleted, 2 purged.
    pub status: i32,
    /// Creation time.
    pub created_at: i64,
    /// Last access time, if any.
    pub last_accessed: Option<i64>,
    /// Ids of the chunks of the attachment.
    pub chunk_ids: Vec<Vec<u8>>,
}

/// The mathematical form of a [`AttachmentMetadata`].
pub struct AttachmentMetadataView {
    pub id: i64,
    pub message_id: Seq<u8>,
    pub filename: Seq<char>,
    pub size: u64,
    pub file_hash: Seq<u8>,
    pub mime_type: Option<Seq<char>>,
    pub status: i32,
    pub created_at: i64,
    pub last_accessed: Option<i64>,
    pub chunk_ids: Seq<Seq<u8>>,
}

impl View for AttachmentMetadata {
    type V = AttachmentMetadataView;

    open spec fn view(&self) -> AttachmentMetadataView {
        AttachmentMetadataView {
            id: self.id,
            message_id: self.message_id@,
            filename: self.filename@,
            size: self.size,
            file_hash: self.file_hash@,
            mime_type: match &self.mime_type { Some(s) => Some(s@), None => None },
            status: self.status,
            created_at: self.created_at,
            last_accessed: self.last_accessed,
            chunk_ids: bytes_list_view(self.chunk_ids@),
        }
    }
}

/// The fields that a [`AttachmentMetadata`] is sent as, by field.
pub open spec fn attachment_metadata_segs(m: AttachmentMetadataView) -> Seq<Seq<SpecField>> {
    seq![
        seg_varint(1, m.id as u64),
        seg_bytes(2, m.message_id),
        seg_bytes(3, encode_utf8(m.filename)),
        seg_varint(4, m.size),
        seg_bytes(5, m.file_hash),
        seg_opt_bytes(6, opt_utf8(m.mime_type)),
        seg_varint(7, (m.status as i64) as u64),
        seg_varint(8, m.created_at as u64),
        seg_opt_varint(9, opt_i64_bits(m.last_accessed)),
        seg_rep_bytes(10, m.chunk_ids),
    ]
}

/// The field numbers of the parts of a [`AttachmentMetadata`].
pub open spec fn attachment_metadata_ranges() -> Seq<(u32, u32)> {
    simple_ranges(10)
}

/// The encoding of a [`AttachmentMetadata`].
pub open spec fn attachment_metadata_encoding(m: AttachmentMetadataView) -> Seq<u8> {
    fields_bytes(flatten(attachment_metadata_segs(m)))
}

/// The [`AttachmentMetadata`] that a list of fields describes, if any.
pub open spec fn attachment_metadata_from_fields(fs: Seq<SpecField>) -> Option<AttachmentMetadataView> {
    match get_varint_spec(fs, 1) {
        Some(x) => { let v0 = x as i64; match get_bytes_spec(fs, 2) {
        Some(x) => { let v1 = x; match get_string_spec(fs, 3) {
        Some(x) => { let v2 = x; match get_varint_spec(fs, 4) {
        Some(x) => { let v3 = x; match get_bytes_spec(fs, 5) {
        Some(x) => { let v4 = x; match get_opt_string_spec(fs, 6) {
        Some(x) => { let v5 = x; match get_varint_spec(fs, 7) {
        Some(x) => { let v6 = x as i32; match get_varint_spec(fs, 8) {
        Some(x) => { let v7 = x as i64; match get_opt_varint_spec(fs, 9) {
        Some(x) => { let v8 = match x { Some(v) => Some(v as i64), None => None }; match get_rep_bytes_spec(fs, 10) {
        Some(x) => { let v9 = x; Some(AttachmentMetadataView { id: v0, message_id: v1, filename: v2, size: v3, file_hash: v4, mime_type: v5, status: v6, created_at: v7, last_accessed: v8, chunk_ids: v9 }) },
        None => None,
    } },
        None => None,
    } },
        None => None,
    } },
        None => None,
    } },
        None => None,
    } },
        None => None,
    } },
        None => None,
    } },
        None => None,
    } },
        None => None,
    } },
        None => None,
    }
}

/// The [`AttachmentMetadata`] that bytes encode, if any.
pub open spec fn attachment_metadata_decoding(b: Seq<u8>) -> Option<AttachmentMetadataView> {
    match parse_fields(b) {
        Some(fs) => attachment_metadata_from_fields(fs),
        None => None,
    }
}

/// Decoding an encoded [`AttachmentMetadata`] gives it back.
pub proof fn lemma_attachment_metadata_round_trip(m: AttachmentMetadataView)
    requires
        attachment_metadata_encoding(m).len() <= u64::MAX,
    ensures
        attachment_metadata_decoding(attachment_metadata_encoding(m)) == Some(m),
{
    broadcast use lemma_all_in_segs;
    let segs = attachment_metadata_segs(m);
    let ranges = attachment_metadata_ranges();
    assert forall|k: int| 0 <= k < segs.len() implies all_in(#[trigger] segs[k], ranges[k].0, ranges[k].1) by {
        if k == 0 { } else if k == 1 { } else if k == 2 { } else if k == 3 { } else if k == 4 { } else if k == 5 { } else if k == 6 { } else if k == 7 { } else if k == 8 { } else if k == 9 { }
    }
    assert(segs_ok(segs, ranges));
    lemma_flatten_tags_ok(segs, ranges);
    lemma_parse_fields(flatten(segs));

    lemma_flatten_tag(segs, ranges, 0, 1); lemma_get_seg_varint(1, m.id as u64); lemma_i64_cast(m.id);
    lemma_flatten_tag(segs, ranges, 1, 2); lemma_get_seg_bytes(2, m.message_id);
    lemma_flatten_tag(segs, ranges, 2, 3); lemma_get_seg_string(3, m.filename);
    lemma_flatten_tag(segs, ranges, 3, 4); lemma_get_seg_varint(4, m.size);
    lemma_flatten_tag(segs, ranges, 4, 5); lemma_get_seg_bytes(5, m.file_hash);
    lemma_flatten_tag(segs, ranges, 5, 6); lemma_get_seg_opt_string(6, m.mime_type);
    lemma_flatten_tag(segs, ranges, 6, 7); lemma_get_seg_varint(7, (m.status as i64) as u64); lemma_i32_cast(m.status);
    lemma_flatten_tag(segs, ranges, 7, 8); lemma_get_seg_varint(8, m.created_at as u64); lemma_i64_cast(m.created_at);
    lemma_flatten_tag(segs, ranges, 8, 9); lemma_get_seg_opt_varint(9, opt_i64_bits(m.last_accessed)); if let Some(v) = m.last_accessed { lemma_i64_cast(v); }
    lemma_flatten_tag(segs, ranges, 9, 10); lemma_get_seg_rep_bytes(10, m.chunk_ids);
}

impl AttachmentMetadata {
    /// Encodes the message.
    pub fn encode_to_vec(&self) -> (r: Vec<u8>)
        ensures
            r@ == attachment_metadata_encoding(self@),
    {
        let ghost segs = attachment_metadata_segs(self@);
        let mut buf: Vec<u8> = Vec::new();
        proof { lemma_flatten_take(segs, 0); }
        put_varint_seg(&mut buf, 1, self.id as u64);
        proof { lemma_flatten_take(segs, 0); }
        assert(buf@ =~= fields_bytes(flatten(segs.take(1))));
        put_bytes_seg(&mut buf, 2, self.message_id.as_slice());
        proof { lemma_flatten_take(segs, 1); }
        assert(buf@ =~= fields_bytes(flatten(segs.take(2))));
        put_string_seg(&mut buf, 3, &self.filename);
        proof { lemma_flatten_take(segs, 2); }
        assert(buf@ =~= fields_bytes(flatten(segs.take(3))));
        put_varint_seg(&mut buf, 4, self.size);
        proof { lemma_flatten_take(segs, 3); }
        assert(buf@ =~= fields_bytes(flatten(segs.take(4))));
        put_bytes_seg(&mut buf, 5, self.file_hash.as_slice());
        proof { lemma_flatten_take(segs, 4); }
        assert(buf@ =~= fields_bytes(flatten(segs.take(5))));
        match &self.mime_type { Some(s) => { put_opt_bytes_seg(&mut buf, 6, Some(s.as_str().as_bytes())); }, None => { put_opt_bytes_seg(&mut buf, 6, None); } }
        proof { lemma_flatten_take(segs, 5); }
        assert(buf@ =~= fields_bytes(flatten(segs.take(6))));
        put_varint_seg(&mut buf, 7, (self.status as i64) as u64);
        proof { lemma_flatten_take(segs, 6); }
        assert(buf@ =~= fields_bytes(flatten(segs.take(7))));
        put_varint_seg(&mut buf, 8, self.created_at as u64);
        proof { lemma_flatten_take(segs, 7); }
        assert(buf@ =~= fields_bytes(flatten(segs.take(8))));
        put_opt_varint_seg(&mut buf, 9, match self.last_accessed { Some(v) => Some(v as u64), None => None });
        proof { lemma_flatten_take(segs, 8); }
        assert(buf@ =~= fields_bytes(flatten(segs.take(9))));
        put_rep_bytes_seg(&mut buf, 10, &self.chunk_ids);
        proof { lemma_flatten_take(segs, 9); }
        assert(buf@ =~= fields_bytes(flatten(segs.take(10))));
        buf
    }

    /// Decodes a message.
    pub fn decode(buf: &[u8]) -> (r: Result<AttachmentMetadata, DecodeError>)
        ensures
            match attachment_metadata_decoding(buf@) {
                Some(v) => r matches Ok(m) && m@ == v,
                None => r is Err,
            },
    {
        let fs = match decode_fields(buf) {
            Some(fs) => fs,
            None => { return Err(DecodeError); },
        };
        let id = get_varint(&fs, 1)? as i64;
        let message_id = get_bytes(&fs, 2)?;
        let filename = get_string(&fs, 3)?;
        let size = get_varint(&fs, 4)?;
        let file_hash = get_bytes(&fs, 5)?;
        let mime_type = get_opt_string(&fs, 6)?;
        let status = get_varint(&fs, 7)? as i32;
        let created_at = get_varint(&fs, 8)? as i64;
        let last_accessed = match get_opt_varint(&fs, 9)? { Some(v) => Some(v as i64), None => None };
        let chunk_ids = get_rep_bytes(&fs, 10)?;
        Ok(AttachmentMetadata { id, message_id, filename, size, file_hash, mime_type, status, created_at, last_accessed, chunk_ids })
    }
}

/// The encodings of a list of [`AttachmentMetadata`] messages.
pub open spec fn attachment_metadata_encodings(ms: Seq<AttachmentMetadataView>) -> Seq<Seq<u8>> {
    Seq::new(ms.len(), |i: int| attachment_metadata_encoding(ms[i]))
}

/// The [`AttachmentMetadata`] messages that a list of byte strings encode, if each does.
pub open spec fn attachment_metadata_decode_all(bs: Seq<Seq<u8>>) -> Option<Seq<AttachmentMetadataView>>
    decreases bs.len(),
{
    if bs.len() == 0 {
        Some(Seq::empty())
    } else {
        match attachment_metadata_decoding(bs[0]) {
            Some(x) => match attachment_metadata_decode_all(bs.drop_first()) {
                Some(r) => Some(seq![x] + r),
                None => None,
            },
            None => None,
        }
    }
}

/// Decoding encoded [`AttachmentMetadata`] messages gives them back.
pub proof fn lemma_attachment_metadata_decode_all(ms: Seq<AttachmentMetadataView>)
    requires
        forall|j: int| 0 <= j < ms.len() ==> #[trigger] attachment_metadata_encoding(ms[j]).len() <= u64::MAX,
    ensures
        attachment_metadata_decode_all(attachment_metadata_encodings(ms)) == Some(ms),
    decreases ms.len(),
{
    if ms.len() > 0 {
        assert(attachment_metadata_encoding(ms[0]).len() <= u64::MAX);
        lemma_attachment_metadata_round_trip(ms[0]);
        assert(attachment_metadata_encodings(ms).drop_first() =~= attachment_metadata_encodings(ms.drop_first()));
        assert forall|j: int| 0 <= j < ms.drop_first().len() implies #[trigger] attachment_metadata_encoding(ms.drop_first()[j]).len() <= u64::MAX by {
            assert(ms.drop_first()[j] == ms[j + 1]);
        }
        lemma_attachment_metadata_decode_all(ms.drop_first());
        assert(seq![ms[0]] + ms.drop_first() =~= ms);
    } else {
        assert(ms =~= Seq::<AttachmentMetadataView>::empty());
    }
}

/// Encodes each message of a list.
pub fn attachment_metadata_encode_all_exec(v: &Vec<AttachmentMetadata>) -> (r: Vec<Vec<u8>>)
    ensures
        bytes_list_view(r@) == attachment_metadata_encodings(Seq::new(v@.len(), |j: int| v@[j]@)),
{
    let mut r: Vec<Vec<u8>> = Vec::new();
    let mut i: usize = 0;
    while i < v.len()
        invariant
            i <= v@.len(),
            r@.len() == i,
            forall|j: int| 0 <= j < i ==> #[trigger] r@[j]@ == attachment_metadata_encoding(v@[j]@),
        decreases v@.len() - i,
    {
        let e = v[i].encode_to_vec();
        r.push(e);
        i = i + 1;
    }
    assert(bytes_list_view(r@) =~= attachment_metadata_encodings(Seq::new(v@.len(), |j: int| v@[j]@)));
    r
}

/// Decodes each byte string of a list.
pub fn attachment_metadata_decode_all_exec(bs: &Vec<Vec<u8>>) -> (r: Result<Vec<AttachmentMetadata>, DecodeError>)
    ensures
        match attachment_metadata_decode_all(bytes_list_view(bs@)) {
            Some(ms) => r matches Ok(v) && Seq::new(v@.len(), |j: int| v@[j]@) == ms,
            None => r is Err,
        },
{
    let ghost bl = bytes_list_view(bs@);
    let mut out: Vec<AttachmentMetadata> = Vec::new();
    let mut i: usize = 0;
    proof {
        assert(bl.skip(0) =~= bl);
        match attachment_metadata_decode_all(bl) {
            Some(rest) => { assert(Seq::new(out@.len(), |j: int| out@[j]@) + rest =~= rest); },
            None => {},
        }
    }
    while i < bs.len()
        invariant
            i <= bs@.len(),
            bl == bytes_list_view(bs@),
            attachment_metadata_decode_all(bl) == (match attachment_metadata_decode_all(bl.skip(i as int)) {
                Some(rest) => Some(Seq::new(out@.len(), |j: int| out@[j]@) + rest),
                None => None,
            }),
        decreases bs@.len() - i,
    {
        let ghost t = bl.skip(i as int);
        proof {
            assert(t[0] == bs@[i as int]@);
            assert(t.drop_first() =~= bl.skip(i + 1));
        }
        let x = AttachmentMetadata::decode(bs[i].as_slice())?;
        proof {
            let before = Seq::new(out@.len(), |j: int| out@[j]@);
            match attachment_metadata_decode_all(bl.skip(i + 1)) {
                Some(rest) => {
                    assert(before + (seq![x@] + rest) =~= Seq::new(out@.len() + 1, |j: int| out@.push(x)[j]@) + rest);
                },
                None => {},
            }
        }
        out.push(x);
        i = i + 1;
    }
    proof {
        assert(bl.skip(bs@.len() as int) =~= Seq::<Seq<u8>>::empty());
        assert(Seq::new(out@.len(), |j: int| out@[j]@) + Seq::<AttachmentMetadataView>::empty() =~= Seq::new(out@.len(), |j: int| out@[j]@));
    }
    Ok(out)
}

} // verus!
