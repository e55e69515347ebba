//! Messages of the SAVED protocol, with their protobuf encoding.
//!
//! Each message encodes as its fields in increasing number order, leaving
//! out singular fields that hold their default value; decoding takes the
//! last value of a singular field, all values of a repeated one, and skips
//! unknown fields. Every message type comes with a proof that decoding its
//! encoding gives it back.

pub mod announce_attachment_metadata;
pub mod edit_message_body;
pub mod fetch_chunks_resp;
pub mod protocol;
pub mod request_attachment_metadata_resp;
pub mod saved_message;

use vstd::prelude::*;
use vstd::utf8::*;
use crate::wire::{{decode_fields, fields_bytes, lemma_parse_fields, parse_fields, DecodeError, SpecField, SpecValue}};
use crate::codec::{{
    bits_to_bools, bits_to_i64s, bools_bits, bools_to_bits, bytes_list_view, flatten,
    get_bytes, get_bytes_spec, get_opt_bytes, get_opt_bytes_spec, get_opt_string, get_opt_string_spec,
    get_opt_varint, get_opt_varint_spec, get_packed, get_packed_spec, get_range_last, get_range_last_spec,
    get_rep_bytes, get_rep_bytes_spec, get_string, get_string_spec, get_varint, get_varint_spec,
    i64s_bits, i64s_to_bits, lemma_all_in_segs, lemma_bools_round_trip, lemma_flatten_len,
    lemma_flatten_range, lemma_flatten_tag, lemma_flatten_tags_ok, lemma_flatten_take,
    lemma_get_range_single, lemma_get_seg_bytes, lemma_get_seg_opt_bytes, lemma_get_seg_opt_string,
    lemma_get_seg_opt_varint, lemma_get_seg_packed, lemma_get_seg_rep_bytes, lemma_get_seg_string,
    lemma_get_seg_varint, lemma_i32_cast, lemma_i64_cast, lemma_i64s_round_trip, lemma_seg_opt_bytes_len,
    lemma_seg_rep_bytes_len, lemma_u32_cast, opt_i64_bits, opt_utf8, put_bytes_seg, put_oneof_field,
    put_opt_bytes_seg, put_opt_varint_seg, put_packed_seg, put_rep_bytes_seg, put_string_seg,
    put_varint_seg, range_fields, all_in, segs_ok, seg_bytes, seg_opt_bytes, seg_opt_varint, seg_packed,
    seg_rep_bytes, seg_varint, simple_ranges, utf8_to_string,
}};

verus! {

/// Operation header containing metadata and signature.
#[derive(Clone, Debug, PartialEq, Eq)]
pub struct OpHeader {
    /// 40 bytes: 32-byte device key and 8-byte counter.
    pub op_id: Vec<u8>,
    /// Logical time.
    pub lamport: u64,
    /// Hashes of the operations that this operation depends on.
    pub parents: Vec<Vec<u8>>,
    /// Public key of the device that signed this operation.
    pub signer: Vec<u8>,
    /// Signature over (header || ciphertext).
    pub sig: Vec<u8>,
    /// Unix time at which the operation was created.
    pub timestamp: i64,
    /// 24-byte nonce of the encryption.
    pub nonce: Vec<u8>,
}

/// The mathematical form of a [`OpHeader`].
pub struct OpHeaderView {
    pub op_id: Seq<u8>,
    pub lamport: u64,
    pub parents: Seq<Seq<u8>>,
    pub signer: Seq<u8>,
    pub sig: Seq<u8>,
    pub timestamp: i64,
    pub nonce: Seq<u8>,
}

impl View for OpHeader {
    type V = OpHeaderView;

    open spec fn view(&self) -> OpHeaderView {
        OpHeaderView {
            op_id: self.op_id@,
            lamport: self.lamport,
            parents: bytes_list_view(self.parents@),
            signer: self.signer@,
            sig: self.sig@,
            timestamp: self.timestamp,
            nonce: self.nonce@,
        }
    }
}

/// The fields that a [`OpHeader`] is sent as, by field.
pub open spec fn op_header_segs(m: OpHeaderView) -> Seq<Seq<SpecField>> {
    seq![
        seg_bytes(1, m.op_id),
        seg_varint(2, m.lamport),
        seg_rep_bytes(3, m.parents),
        seg_bytes(4, m.signer),
        seg_bytes(5, m.sig),
        seg_varint(6, m.timestamp as u64),
        seg_bytes(7, m.nonce),
    ]
}

/// The field numbers of the parts of a [`OpHeader`].
pub open spec fn op_header_ranges() -> Seq<(u32, u32)> {
    simple_ranges(7)
}

/// The encoding of a [`OpHeader`].
pub open spec fn op_header_encoding(m: OpHeaderView) -> Seq<u8> {
    fields_bytes(flatten(op_header_segs(m)))
}

/// The [`OpHeader`] that a list of fields describes, if any.
pub open spec fn op_header_from_fields(fs: Seq<SpecField>) -> Option<OpHeaderView> {
    match get_bytes_spec(fs, 1) {
        Some(x) => { let v0 = x; match get_varint_spec(fs, 2) {
        Some(x) => { let v1 = x; match get_rep_bytes_spec(fs, 3) {
        Some(x) => { let v2 = x; match get_bytes_spec(fs, 4) {
        Some(x) => { let v3 = x; match get_bytes_spec(fs, 5) {
        Some(x) => { let v4 = x; match get_varint_spec(fs, 6) {
        Some(x) => { let v5 = x as i64; match get_bytes_spec(fs, 7) {
        Some(x) => { let v6 = x; Some(OpHeaderView { op_id: v0, lamport: v1, parents: v2, signer: v3, sig: v4, timestamp: v5, nonce: v6 }) },
        None => None,
    } },
        None => None,
    } },
        None => None,
    } },
        None => None,
    } },
        None => None,
    } },
        None => None,
    } },
        None => None,
    }
}

/// The [`OpHeader`] that bytes encode, if any.
pub open spec fn op_header_decoding(b: Seq<u8>) -> Option<OpHeaderView> {
    match parse_fields(b) {
        Some(fs) => op_header_from_fields(fs),
        None => None,
    }
}

/// Decoding an encoded [`OpHeader`] gives it back.
pub proof fn lemma_op_header_round_trip(m: OpHeaderView)
    requires
        op_header_encoding(m).len() <= u64::MAX,
    ensures
        op_header_decoding(op_header_encoding(m)) == Some(m),
{
    broadcast use lemma_all_in_segs;
    let segs = op_header_segs(m);
    let ranges = op_header_ranges();
    assert forall|k: int| 0 <= k < segs.len() implies all_in(#[trigger] segs[k], ranges[k].0, ranges[k].1) by {
        if k == 0 { } else if k == 1 { } else if k == 2 { } else if k == 3 { } else if k == 4 { } else if k == 5 { } else if k == 6 { }
    }
    assert(segs_ok(segs, ranges));
    lemma_flatten_tags_ok(segs, ranges);
    lemma_parse_fields(flatten(segs));

    lemma_flatten_tag(segs, ranges, 0, 1); lemma_get_seg_bytes(1, m.op_id);
    lemma_flatten_tag(segs, ranges, 1, 2); lemma_get_seg_varint(2, m.lamport);
    lemma_flatten_tag(segs, ranges, 2, 3); lemma_get_seg_rep_bytes(3, m.parents);
    lemma_flatten_tag(segs, ranges, 3, 4); lemma_get_seg_bytes(4, m.signer);
    lemma_flatten_tag(segs, ranges, 4, 5); lemma_get_seg_bytes(5, m.sig);
    lemma_flatten_tag(segs, ranges, 5, 6); lemma_get_seg_varint(6, m.timestamp as u64); lemma_i64_cast(m.timestamp);
    lemma_flatten_tag(segs, ranges, 6, 7); lemma_get_seg_bytes(7, m.nonce);
}

impl OpHeader {
    /// Encodes the message.
    pub fn encode_to_vec(&self) -> (r: Vec<u8>)
        ensures
            r@ == op_header_encoding(self@),
    {
        let ghost segs = op_header_segs(self@);
        let mut buf: Vec<u8> = Vec::new();
        proof { lemma_flatten_take(segs, 0); }
        put_bytes_seg(&mut buf, 1, self.op_id.as_slice());
        proof { lemma_flatten_take(segs, 0); }
        assert(buf@ =~= fields_bytes(flatten(segs.take(1))));
        put_varint_seg(&mut buf, 2, self.lamport);
        proof { lemma_flatten_take(segs, 1); }
        assert(buf@ =~= fields_bytes(flatten(segs.take(2))));
        put_rep_bytes_seg(&mut buf, 3, &self.parents);
        proof { lemma_flatten_take(segs, 2); }
        assert(buf@ =~= fields_bytes(flatten(segs.take(3))));
        put_bytes_seg(&mut buf, 4, self.signer.as_slice());
        proof { lemma_flatten_take(segs, 3); }
        assert(buf@ =~= fields_bytes(flatten(segs.take(4))));
        put_bytes_seg(&mut buf, 5, self.sig.as_slice());
        proof { lemma_flatten_take(segs, 4); }
        assert(buf@ =~= fields_bytes(flatten(segs.take(5))));
        put_varint_seg(&mut buf, 6, self.timestamp as u64);
        proof { lemma_flatten_take(segs, 5); }
        assert(buf@ =~= fields_bytes(flatten(segs.take(6))));
        put_bytes_seg(&mut buf, 7, self.nonce.as_slice());
        proof { lemma_flatten_take(segs, 6); }
        assert(buf@ =~= fields_bytes(flatten(segs.take(7))));
        buf
    }

    /// Decodes a message.
    pub fn decode(buf: &[u8]) -> (r: Result<OpHeader, DecodeError>)
        ensures
            match op_header_decoding(buf@) {
                Some(v) => r matches Ok(m) && m@ == v,
                None => r is Err,
            },
    {
        let fs = match decode_fields(buf) {
            Some(fs) => fs,
            None => { return Err(DecodeError); },
        };
        let op_id = get_bytes(&fs, 1)?;
        let lamport = get_varint(&fs, 2)?;
        let parents = get_rep_bytes(&fs, 3)?;
        let signer = get_bytes(&fs, 4)?;
        let sig = get_bytes(&fs, 5)?;
        let timestamp = get_varint(&fs, 6)? as i64;
        let nonce = get_bytes(&fs, 7)?;
        Ok(OpHeader { op_id, lamport, parents, signer, sig, timestamp, nonce })
    }
}

/// The encodings of a list of [`OpHeader`] messages.
pub open spec fn op_header_encodings(ms: Seq<OpHeaderView>) -> Seq<Seq<u8>> {
    Seq::new(ms.len(), |i: int| op_header_encoding(ms[i]))
}

/// The [`OpHeader`] messages that a list of byte strings encode, if each does.
pub open spec fn op_header_decode_all(bs: Seq<Seq<u8>>) -> Option<Seq<OpHeaderView>>
    decreases bs.len(),
{
    if bs.len() == 0 {
        Some(Seq::empty())
    } else {
        match op_header_decoding(bs[0]) {
            Some(x) => match op_header_decode_all(bs.drop_first()) {
                Some(r) => Some(seq![x] + r),
                None => None,
            },
            None => None,
        }
    }
}

/// Decoding encoded [`OpHeader`] messages gives them back.
pub proof fn lemma_op_header_decode_all(ms: Seq<OpHeaderView>)
    requires
        forall|j: int| 0 <= j < ms.len() ==> #[trigger] op_header_encoding(ms[j]).len() <= u64::MAX,
    ensures
        op_header_decode_all(op_header_encodings(ms)) == Some(ms),
    decreases ms.len(),
{
    if ms.len() > 0 {
        assert(op_header_encoding(ms[0]).len() <= u64::MAX);
        lemma_op_header_round_trip(ms[0]);
        assert(op_header_encodings(ms).drop_first() =~= op_header_encodings(ms.drop_first()));
        assert forall|j: int| 0 <= j < ms.drop_first().len() implies #[trigger] op_header_encoding(ms.drop_first()[j]).len() <= u64::MAX by {
            assert(ms.drop_first()[j] == ms[j + 1]);
        }
        lemma_op_header_decode_all(ms.drop_first());
        assert(seq![ms[0]] + ms.drop_first() =~= ms);
    } else {
        assert(ms =~= Seq::<OpHeaderView>::empty());
    }
}

/// Encodes each message of a list.
pub fn op_header_encode_all_exec(v: &Vec<OpHeader>) -> (r: Vec<Vec<u8>>)
    ensures
        bytes_list_view(r@) == op_header_encodings(Seq::new(v@.len(), |j: int| v@[j]@)),
{
    let mut r: Vec<Vec<u8>> = Vec::new();
    let mut i: usize = 0;
    while i < v.len()
        invariant
            i <= v@.len(),
            r@.len() == i,
            forall|j: int| 0 <= j < i ==> #[trigger] r@[j]@ == op_header_encoding(v@[j]@),
        decreases v@.len() - i,
    {
        let e = v[i].encode_to_vec();
        r.push(e);
        i = i + 1;
    }
    assert(bytes_list_view(r@) =~= op_header_encodings(Seq::new(v@.len(), |j: int| v@[j]@)));
    r
}

/// Decodes each byte string of a list.
pub fn op_header_decode_all_exec(bs: &Vec<Vec<u8>>) -> (r: Result<Vec<OpHeader>, DecodeError>)
    ensures
        match op_header_decode_all(bytes_list_view(bs@)) {
            Some(ms) => r matches Ok(v) && Seq::new(v@.len(), |j: int| v@[j]@) == ms,
            None => r is Err,
        },
{
    let ghost bl = bytes_list_view(bs@);
    let mut out: Vec<OpHeader> = Vec::new();
    let mut i: usize = 0;
    proof {
        assert(bl.skip(0) =~= bl);
        match op_header_decode_all(bl) {
            Some(rest) => { assert(Seq::new(out@.len(), |j: int| out@[j]@) + rest =~= rest); },
            None => {},
        }
    }
    while i < bs.len()
        invariant
            i <= bs@.len(),
            bl == bytes_list_view(bs@),
            op_header_decode_all(bl) == (match op_header_decode_all(bl.skip(i as int)) {
                Some(rest) => Some(Seq::new(out@.len(), |j: int| out@[j]@) + rest),
                None => None,
            }),
        decreases bs@.len() - i,
    {
        let ghost t = bl.skip(i as int);
        proof {
            assert(t[0] == bs@[i as int]@);
            assert(t.drop_first() =~= bl.skip(i + 1));
        }
        let x = OpHeader::decode(bs[i].as_slice())?;
        proof {
            let before = Seq::new(out@.len(), |j: int| out@[j]@);
            match op_header_decode_all(bl.skip(i + 1)) {
                Some(rest) => {
                    assert(before + (seq![x@] + rest) =~= Seq::new(out@.len() + 1, |j: int| out@.push(x)[j]@) + rest);
                },
                None => {},
            }
        }
        out.push(x);
        i = i + 1;
    }
    proof {
        assert(bl.skip(bs@.len() as int) =~= Seq::<Seq<u8>>::empty());
        assert(Seq::new(out@.len(), |j: int| out@[j]@) + Seq::<OpHeaderView>::empty() =~= Seq::new(out@.len(), |j: int| out@[j]@));
    }
    Ok(out)
}

/// Body of an operation that creates a message.
#[derive(Clone, Debug, PartialEq, Eq)]
pub struct CreateMessageBody {
    /// 32-byte message id.
    pub msg_id: Vec<u8>,
    /// Feed identifier (by default "default").
    pub feed_id: String,
    /// Message text.
    pub body: String,
    /// Content ids of the attachment chunks.
    pub att_cids: Vec<Vec<u8>>,
    /// Wall-clock time of creation, in milliseconds.
    pub created_at_ms: i64,
}

/// The mathematical form of a [`CreateMessageBody`].
pub struct CreateMessageBodyView {
    pub msg_id: Seq<u8>,
    pub feed_id: Seq<char>,
    pub body: Seq<char>,
    pub att_cids: Seq<Seq<u8>>,
    pub created_at_ms: i64,
}

impl View for CreateMessageBody {
    type V = CreateMessageBodyView;

    open spec fn view(&self) -> CreateMessageBodyView {
        CreateMessageBodyView {
            msg_id: self.msg_id@,
            feed_id: self.feed_id@,
            body: self.body@,
            att_cids: bytes_list_view(self.att_cids@),
            created_at_ms: self.created_at_ms,
        }
    }
}

/// The fields that a [`CreateMessageBody`] is sent as, by field.
pub open spec fn create_message_body_segs(m: CreateMessageBodyView) -> Seq<Seq<SpecField>> {
    seq![
        seg_bytes(1, m.msg_id),
        seg_bytes(2, encode_utf8(m.feed_id)),
        seg_bytes(3, encode_utf8(m.body)),
        seg_rep_bytes(4, m.att_cids),
        seg_varint(5, m.created_at_ms as u64),
    ]
}

/// The field numbers of the parts of a [`CreateMessageBody`].
pub open spec fn create_message_body_ranges() -> Seq<(u32, u32)> {
    simple_ranges(5)
}

/// The encoding of a [`CreateMessageBody`].
pub open spec fn create_message_body_encoding(m: CreateMessageBodyView) -> Seq<u8> {
    fields_bytes(flatten(create_message_body_segs(m)))
}

/// The [`CreateMessageBody`] that a list of fields describes, if any.
pub open spec fn create_message_body_from_fields(fs: Seq<SpecField>) -> Option<CreateMessageBodyView> {
    match get_bytes_spec(fs, 1) {
        Some(x) => { let v0 = x; match get_string_spec(fs, 2) {
        Some(x) => { let v1 = x; match get_string_spec(fs, 3) {
        Some(x) => { let v2 = x; match get_rep_bytes_spec(fs, 4) {
        Some(x) => { let v3 = x; match get_varint_spec(fs, 5) {
        Some(x) => { let v4 = x as i64; Some(CreateMessageBodyView { msg_id: v0, feed_id: v1, body: v2, att_cids: v3, created_at_ms: v4 }) },
        None => None,
    } },
        None => None,
    } },
        None => None,
    } },
        None => None,
    } },
        None => None,
    }
}

/// The [`CreateMessageBody`] that bytes encode, if any.
pub open spec fn create_message_body_decoding(b: Seq<u8>) -> Option<CreateMessageBodyView> {
    match parse_fields(b) {
        Some(fs) => create_message_body_from_fields(fs),
        None => None,
    }
}

/// Decoding an encoded [`CreateMessageBody`] gives it back.
pub proof fn lemma_create_message_body_round_trip(m: CreateMessageBodyView)
    requires
        create_message_body_encoding(m).len() <= u64::MAX,
    ensures
        create_message_body_decoding(create_message_body_encoding(m)) == Some(m),
{
    broadcast use lemma_all_in_segs;
    let segs = create_message_body_segs(m);
    let ranges = create_message_body_ranges();
    assert forall|k: int| 0 <= k < segs.len() implies all_in(#[trigger] segs[k], ranges[k].0, ranges[k].1) by {
        if k == 0 { } else if k == 1 { } else if k == 2 { } else if k == 3 { } else if k == 4 { }
    }
    assert(segs_ok(segs, ranges));
    lemma_flatten_tags_ok(segs, ranges);
    lemma_parse_fields(flatten(segs));

    lemma_flatten_tag(segs, ranges, 0, 1); lemma_get_seg_bytes(1, m.msg_id);
    lemma_flatten_tag(segs, ranges, 1, 2); lemma_get_seg_string(2, m.feed_id);
    lemma_flatten_tag(segs, ranges, 2, 3); lemma_get_seg_string(3, m.body);
    lemma_flatten_tag(segs, ranges, 3, 4); lemma_get_seg_rep_bytes(4, m.att_cids);
    lemma_flatten_tag(segs, ranges, 4, 5); lemma_get_seg_varint(5, m.created_at_ms as u64); lemma_i64_cast(m.created_at_ms);
}

impl CreateMessageBody {
    /// Encodes the message.
    pub fn encode_to_vec(&self) -> (r: Vec<u8>)
        ensures
            r@ == create_message_body_encoding(self@),
    {
        let ghost segs = create_message_body_segs(self@);
        let mut buf: Vec<u8> = Vec::new();
        proof { lemma_flatten_take(segs, 0); }
        put_bytes_seg(&mut buf, 1, self.msg_id.as_slice());
        proof { lemma_flatten_take(segs, 0); }
        assert(buf@ =~= fields_bytes(flatten(segs.take(1))));
        put_string_seg(&mut buf, 2, &self.feed_id);
        proof { lemma_flatten_take(segs, 1); }
        assert(buf@ =~= fields_bytes(flatten(segs.take(2))));
        put_string_seg(&mut buf, 3, &self.body);
        proof { lemma_flatten_take(segs, 2); }
        assert(buf@ =~= fields_bytes(flatten(segs.take(3))));
        put_rep_bytes_seg(&mut buf, 4, &self.att_cids);
        proof { lemma_flatten_take(segs, 3); }
        assert(buf@ =~= fields_bytes(flatten(segs.take(4))));
        put_varint_seg(&mut buf, 5, self.created_at_ms as u64);
        proof { lemma_flatten_take(segs, 4); }
        assert(buf@ =~= fields_bytes(flatten(segs.take(5))));
        buf
    }

    /// Decodes a message.
    pub fn decode(buf: &[u8]) -> (r: Result<CreateMessageBody, DecodeError>)
        ensures
            match create_message_body_decoding(buf@) {
                Some(v) => r matches Ok(m) && m@ == v,
                None => r is Err,
            },
    {
        let fs = match decode_fields(buf) {
            Some(fs) => fs,
            None => { return Err(DecodeError); },
        };
        let msg_id = get_bytes(&fs, 1)?;
        let feed_id = get_string(&fs, 2)?;
        let body = get_string(&fs, 3)?;
        let att_cids = get_rep_bytes(&fs, 4)?;
        let created_at_ms = get_varint(&fs, 5)? as i64;
        Ok(CreateMessageBody { msg_id, feed_id, body, att_cids, created_at_ms })
    }
}

/// Body of an operation that edits a message.
#[derive(Clone, Debug, PartialEq, Eq)]
pub struct EditMessageBody {
    /// Id of the message to edit.
    pub msg_id: Vec<u8>,
    /// Either the whole new text or a delta.
    pub payload: Option<crate::protobuf::edit_message_body::Payload>,
    /// Wall-clock time of the edit, in milliseconds.
    pub edited_at_ms: i64,
}

/// The mathematical form of a [`EditMessageBody`].
pub struct EditMessageBodyView {
    pub msg_id: Seq<u8>,
    pub payload: Option<crate::protobuf::edit_message_body::PayloadView>,
    pub edited_at_ms: i64,
}

impl View for EditMessageBody {
    type V = EditMessageBodyView;

    open spec fn view(&self) -> EditMessageBodyView {
        EditMessageBodyView {
            msg_id: self.msg_id@,
            payload: match &self.payload { Some(x) => Some(x@), None => None },
            edited_at_ms: self.edited_at_ms,
        }
    }
}

/// The one-of field `payload` as sent: one field for the variant that is set.
pub open spec fn edit_message_body_payload_seg(o: Option<crate::protobuf::edit_message_body::PayloadView>) -> Seq<SpecField> {
    match o {
        Some(crate::protobuf::edit_message_body::PayloadView::BodyFull(s)) => seq![SpecField { tag: 2, value: SpecValue::Bytes(encode_utf8(s)) }],
        Some(crate::protobuf::edit_message_body::PayloadView::BodyDelta(b)) => seq![SpecField { tag: 3, value: SpecValue::Bytes(b) }],
        None => Seq::empty(),
    }
}

/// The one-of field `payload`, from the last field sent in its range.
pub open spec fn edit_message_body_payload_decoding(g: Option<Option<(u32, Seq<u8>)>>) -> Option<Option<crate::protobuf::edit_message_body::PayloadView>> {
    match g {
        Some(Some((t, b))) => if t == 2 { if valid_utf8(b) { Some(Some(crate::protobuf::edit_message_body::PayloadView::BodyFull(decode_utf8(b)))) } else { None } } else if t == 3 { Some(Some(crate::protobuf::edit_message_body::PayloadView::BodyDelta(b))) } else { None },
        Some(None) => Some(None),
        None => None,
    }
}

proof fn edit_message_body_payload_lemma(o: Option<crate::protobuf::edit_message_body::PayloadView>)
    requires
        fields_bytes(edit_message_body_payload_seg(o)).len() <= u64::MAX,
    ensures
        edit_message_body_payload_decoding(get_range_last_spec(edit_message_body_payload_seg(o), 2, 3)) == Some(o),
        all_in(edit_message_body_payload_seg(o), 2, 3),
{
    match o {
        Some(crate::protobuf::edit_message_body::PayloadView::BodyFull(s)) => { lemma_get_range_single(2, encode_utf8(s), 2, 3); encode_utf8_valid_utf8(s); encode_utf8_decode_utf8(s); },
        Some(crate::protobuf::edit_message_body::PayloadView::BodyDelta(b)) => { lemma_get_range_single(3, b, 2, 3); },
        None => { lemma_get_range_single(2, Seq::<u8>::empty(), 2, 3); },
    }
}

fn edit_message_body_payload_put(buf: &mut Vec<u8>, o: &Option<crate::protobuf::edit_message_body::Payload>)
    ensures
        final(buf)@ == old(buf)@ + fields_bytes(edit_message_body_payload_seg(match o { Some(x) => Some(x@), None => None })),
{
    match o {
        Some(crate::protobuf::edit_message_body::Payload::BodyFull(s)) => { put_oneof_field(buf, 2, s.as_str().as_bytes()); },
        Some(crate::protobuf::edit_message_body::Payload::BodyDelta(b)) => { put_oneof_field(buf, 3, b.as_slice()); },
        None => { assert(buf@ + Seq::<u8>::empty() =~= buf@); },
    }
}

fn edit_message_body_payload_get(fs: &Vec<crate::wire::Field>) -> (r: Result<Option<crate::protobuf::edit_message_body::Payload>, DecodeError>)
    ensures
        match edit_message_body_payload_decoding(get_range_last_spec(crate::wire::fields_view(fs@), 2, 3)) {
            Some(v) => r matches Ok(x) && (match x { Some(y) => Some(y@), None => None }) == v,
            None => r is Err,
        },
{
    match get_range_last(fs, 2, 3)? {
        Some((t, b)) => if t == 2 { match utf8_to_string(b) { Some(s) => Ok(Some(crate::protobuf::edit_message_body::Payload::BodyFull(s))), None => Err(DecodeError) } } else if t == 3 { Ok(Some(crate::protobuf::edit_message_body::Payload::BodyDelta(b))) } else { Err(DecodeError) },
        None => Ok(None),
    }
}

/// The fields that a [`EditMessageBody`] is sent as, by field.
pub open spec fn edit_message_body_segs(m: EditMessageBodyView) -> Seq<Seq<SpecField>> {
    seq![
        seg_bytes(1, m.msg_id),
        edit_message_body_payload_seg(m.payload),
        seg_varint(4, m.edited_at_ms as u64),
    ]
}

/// The field numbers of the parts of a [`EditMessageBody`].
pub open spec fn edit_message_body_ranges() -> Seq<(u32, u32)> {
    Seq::new(3, |i: int| if i == 0 { (1u32, 1u32) } else if i == 1 { (2u32, 3u32) } else { (4u32, 4u32) })
}

/// The encoding of a [`EditMessageBody`].
pub open spec fn edit_message_body_encoding(m: EditMessageBodyView) -> Seq<u8> {
    fields_bytes(flatten(edit_message_body_segs(m)))
}

/// The [`EditMessageBody`] that a list of fields describes, if any.
pub open spec fn edit_message_body_from_fields(fs: Seq<SpecField>) -> Option<EditMessageBodyView> {
    match get_bytes_spec(fs, 1) {
        Some(x) => { let v0 = x; match edit_message_body_payload_decoding(get_range_last_spec(fs, 2, 3)) {
        Some(x) => { let v1 = x; match get_varint_spec(fs, 4) {
        Some(x) => { let v2 = x as i64; Some(EditMessageBodyView { msg_id: v0, payload: v1, edited_at_ms: v2 }) },
        None => None,
    } },
        None => None,
    } },
        None => None,
    }
}

/// The [`EditMessageBody`] that bytes encode, if any.
pub open spec fn edit_message_body_decoding(b: Seq<u8>) -> Option<EditMessageBodyView> {
    match parse_fields(b) {
        Some(fs) => edit_message_body_from_fields(fs),
        None => None,
    }
}

/// Decoding an encoded [`EditMessageBody`] gives it back.
pub proof fn lemma_edit_message_body_round_trip(m: EditMessageBodyView)
    requires
        edit_message_body_encoding(m).len() <= u64::MAX,
    ensures
        edit_message_body_decoding(edit_message_body_encoding(m)) == Some(m),
{
    broadcast use lemma_all_in_segs;
    let segs = edit_message_body_segs(m);
    let ranges = edit_message_body_ranges();
    lemma_flatten_len(segs, 1);
    assert forall|k: int| 0 <= k < segs.len() implies all_in(#[trigger] segs[k], ranges[k].0, ranges[k].1) by {
        if k == 0 { } else if k == 1 { edit_message_body_payload_lemma(m.payload); } else if k == 2 { }
    }
    assert(segs_ok(segs, ranges));
    lemma_flatten_tags_ok(segs, ranges);
    lemma_parse_fields(flatten(segs));

    lemma_flatten_tag(segs, ranges, 0, 1); lemma_get_seg_bytes(1, m.msg_id);
    lemma_flatten_range(segs, ranges, 1); edit_message_body_payload_lemma(m.payload);
    lemma_flatten_tag(segs, ranges, 2, 4); lemma_get_seg_varint(4, m.edited_at_ms as u64); lemma_i64_cast(m.edited_at_ms);
}

impl EditMessageBody {
    /// Encodes the message.
    pub fn encode_to_vec(&self) -> (r: Vec<u8>)
        ensures
            r@ == edit_message_body_encoding(self@),
    {
        let ghost segs = edit_message_body_segs(self@);
        let mut buf: Vec<u8> = Vec::new();
        proof { lemma_flatten_take(segs, 0); }
        put_bytes_seg(&mut buf, 1, self.msg_id.as_slice());
        proof { lemma_flatten_take(segs, 0); }
        assert(buf@ =~= fields_bytes(flatten(segs.take(1))));
        edit_message_body_payload_put(&mut buf, &self.payload);
        proof { lemma_flatten_take(segs, 1); }
        assert(buf@ =~= fields_bytes(flatten(segs.take(2))));
        put_varint_seg(&mut buf, 4, self.edited_at_ms as u64);
        proof { lemma_flatten_take(segs, 2); }
        assert(buf@ =~= fields_bytes(flatten(segs.take(3))));
        buf
    }

    /// Decodes a message.
    pub fn decode(buf: &[u8]) -> (r: Result<EditMessageBody, DecodeError>)
        ensures
            match edit_message_body_decoding(buf@) {
                Some(v) => r matches Ok(m) && m@ == v,
                None => r is Err,
            },
    {
        let fs = match decode_fields(buf) {
            Some(fs) => fs,
            None => { return Err(DecodeError); },
        };
        let msg_id = get_bytes(&fs, 1)?;
        let payload = edit_message_body_payload_get(&fs)?;
        let edited_at_ms = get_varint(&fs, 4)? as i64;
        Ok(EditMessageBody { msg_id, payload, edited_at_ms })
    }
}

/// Body of an operation that deletes a message.
#[derive(Clone, Debug, PartialEq, Eq)]
pub struct DeleteMessageBody {
    /// Id of the message to delete.
    pub msg_id: Vec<u8>,
    /// Optional reason for the deletion.
    pub reason: String,
    /// Wall-clock time of the deletion, in milliseconds.
    pub deleted_at_ms: i64,
}

/// The mathematical form of a [`DeleteMessageBody`].
pub struct DeleteMessageBodyView {
    pub msg_id: Seq<u8>,
    pub reason: Seq<char>,
    pub deleted_at_ms: i64,
}

impl View for DeleteMessageBody {
    type V = DeleteMessageBodyView;

    open spec fn view(&self) -> DeleteMessageBodyView {
        DeleteMessageBodyView {
            msg_id: self.msg_id@,
            reason: self.reason@,
            deleted_at_ms: self.deleted_at_ms,
        }
    }
}

/// The fields that a [`DeleteMessageBody`] is sent as, by field.
pub open spec fn delete_message_body_segs(m: DeleteMessageBodyView) -> Seq<Seq<SpecField>> {
    seq![
        seg_bytes(1, m.msg_id),
        seg_bytes(2, encode_utf8(m.reason)),
        seg_varint(3, m.deleted_at_ms as u64),
    ]
}

/// The field numbers of the parts of a [`DeleteMessageBody`].
pub open spec fn delete_message_body_ranges() -> Seq<(u32, u32)> {
    simple_ranges(3)
}

/// The encoding of a [`DeleteMessageBody`].
pub open spec fn delete_message_body_encoding(m: DeleteMessageBodyView) -> Seq<u8> {
    fields_bytes(flatten(delete_message_body_segs(m)))
}

/// The [`DeleteMessageBody`] that a list of fields describes, if any.
pub open spec fn delete_message_body_from_fields(fs: Seq<SpecField>) -> Option<DeleteMessageBodyView> {
    match get_bytes_spec(fs, 1) {
        Some(x) => { let v0 = x; match get_string_spec(fs, 2) {
        Some(x) => { let v1 = x; match get_varint_spec(fs, 3) {
        Some(x) => { let v2 = x as i64; Some(DeleteMessageBodyView { msg_id: v0, reason: v1, deleted_at_ms: v2 }) },
        None => None,
    } },
        None => None,
    } },
        None => None,
    }
}

/// The [`DeleteMessageBody`] that bytes encode, if any.
pub open spec fn delete_message_body_decoding(b: Seq<u8>) -> Option<DeleteMessageBodyView> {
    match parse_fields(b) {
        Some(fs) => delete_message_body_from_fields(fs),
        None => None,
    }
}

/// Decoding an encoded [`DeleteMessageBody`] gives it back.
pub proof fn lemma_delete_message_body_round_trip(m: DeleteMessageBodyView)
    requires
        delete_message_body_encoding(m).len() <= u64::MAX,
    ensures
        delete_message_body_decoding(delete_message_body_encoding(m)) == Some(m),
{
    broadcast use lemma_all_in_segs;
    let segs = delete_message_body_segs(m);
    let ranges = delete_message_body_ranges();
    assert forall|k: int| 0 <= k < segs.len() implies all_in(#[trigger] segs[k], ranges[k].0, ranges[k].1) by {
        if k == 0 { } else if k == 1 { } else if k == 2 { }
    }
    assert(segs_ok(segs, ranges));
    lemma_flatten_tags_ok(segs, ranges);
    lemma_parse_fields(flatten(segs));

    lemma_flatten_tag(segs, ranges, 0, 1); lemma_get_seg_bytes(1, m.msg_id);
    lemma_flatten_tag(segs, ranges, 1, 2); lemma_get_seg_string(2, m.reason);
    lemma_flatten_tag(segs, ranges, 2, 3); lemma_get_seg_varint(3, m.deleted_at_ms as u64); lemma_i64_cast(m.deleted_at_ms);
}

impl DeleteMessageBody {
    /// Encodes the message.
    pub fn encode_to_vec(&self) -> (r: Vec<u8>)
        ensures
            r@ == delete_message_body_encoding(self@),
    {
        let ghost segs = delete_message_body_segs(self@);
        let mut buf: Vec<u8> = Vec::new();
        proof { lemma_flatten_take(segs, 0); }
        put_bytes_seg(&mut buf, 1, self.msg_id.as_slice());
        proof { lemma_flatten_take(segs, 0); }
        assert(buf@ =~= fields_bytes(flatten(segs.take(1))));
        put_string_seg(&mut buf, 2, &self.reason);
        proof { lemma_flatten_take(segs, 1); }
        assert(buf@ =~= fields_bytes(flatten(segs.take(2))));
        put_varint_seg(&mut buf, 3, self.deleted_at_ms as u64);
        proof { lemma_flatten_take(segs, 2); }
        assert(buf@ =~= fields_bytes(flatten(segs.take(3))));
        buf
    }

    /// Decodes a message.
    pub fn decode(buf: &[u8]) -> (r: Result<DeleteMessageBody, DecodeError>)
        ensures
            match delete_message_body_decoding(buf@) {
                Some(v) => r matches Ok(m) && m@ == v,
                None => r is Err,
            },
    {
        let fs = match decode_fields(buf) {
            Some(fs) => fs,
            None => { return Err(DecodeError); },
        };
        let msg_id = get_bytes(&fs, 1)?;
        let reason = get_string(&fs, 2)?;
        let deleted_at_ms = get_varint(&fs, 3)? as i64;
        Ok(DeleteMessageBody { msg_id, reason, deleted_at_ms })
    }
}

/// Body of an operation that attaches files to a message.
#[derive(Clone, Debug, PartialEq, Eq)]
pub struct AttachBody {
    /// Id of the message.
    pub msg_id: Vec<u8>,
    /// Content ids of the chunks to attach.
    pub att_cids: Vec<Vec<u8>>,
}

/// The mathematical form of a [`AttachBody`].
pub struct AttachBodyView {
    pub msg_id: Seq<u8>,
    pub att_cids: Seq<Seq<u8>>,
}

impl View for AttachBody {
    type V = AttachBodyView;

    open spec fn view(&self) -> AttachBodyView {
        AttachBodyView {
            msg_id: self.msg_id@,
            att_cids: bytes_list_view(self.att_cids@),
        }
    }
}

/// The fields that a [`AttachBody`] is sent as, by field.
pub open spec fn attach_body_segs(m: AttachBodyView) -> Seq<Seq<SpecField>> {
    seq![
        seg_bytes(1, m.msg_id),
        seg_rep_bytes(2, m.att_cids),
    ]
}

/// The field numbers of the parts of a [`AttachBody`].
pub open spec fn attach_body_ranges() -> Seq<(u32, u32)> {
    simple_ranges(2)
}

/// The encoding of a [`AttachBody`].
pub open spec fn attach_body_encoding(m: AttachBodyView) -> Seq<u8> {
    fields_bytes(flatten(attach_body_segs(m)))
}

/// The [`AttachBody`] that a list of fields describes, if any.
pub open spec fn attach_body_from_fields(fs: Seq<SpecField>) -> Option<AttachBodyView> {
    match get_bytes_spec(fs, 1) {
        Some(x) => { let v0 = x; match get_rep_bytes_spec(fs, 2) {
        Some(x) => { let v1 = x; Some(AttachBodyView { msg_id: v0, att_cids: v1 }) },
        None => None,
    } },
        None => None,
    }
}

/// The [`AttachBody`] that bytes encode, if any.
pub open spec fn attach_body_decoding(b: Seq<u8>) -> Option<AttachBodyView> {
    match parse_fields(b) {
        Some(fs) => attach_body_from_fields(fs),
        None => None,
    }
}

/// Decoding an encoded [`AttachBody`] gives it back.
pub proof fn lemma_attach_body_round_trip(m: AttachBodyView)
    requires
        attach_body_encoding(m).len() <= u64::MAX,
    ensures
        attach_body_decoding(attach_body_encoding(m)) == Some(m),
{
    broadcast use lemma_all_in_segs;
    let segs = attach_body_segs(m);
    let ranges = attach_body_ranges();
    assert forall|k: int| 0 <= k < segs.len() implies all_in(#[trigger] segs[k], ranges[k].0, ranges[k].1) by {
        if k == 0 { } else if k == 1 { }
    }
    assert(segs_ok(segs, ranges));
    lemma_flatten_tags_ok(segs, ranges);
    lemma_parse_fields(flatten(segs));

    lemma_flatten_tag(segs, ranges, 0, 1); lemma_get_seg_bytes(1, m.msg_id);
    lemma_flatten_tag(segs, ranges, 1, 2); lemma_get_seg_rep_bytes(2, m.att_cids);
}

impl AttachBody {
    /// Encodes the message.
    pub fn encode_to_vec(&self) -> (r: Vec<u8>)
        ensures
            r@ == attach_body_encoding(self@),
    {
        let ghost segs = attach_body_segs(self@);
        let mut buf: Vec<u8> = Vec::new();
        proof { lemma_flatten_take(segs, 0); }
        put_bytes_seg(&mut buf, 1, self.msg_id.as_slice());
        proof { lemma_flatten_take(segs, 0); }
        assert(buf@ =~= fields_bytes(flatten(segs.take(1))));
        put_rep_bytes_seg(&mut buf, 2, &self.att_cids);
        proof { lemma_flatten_take(segs, 1); }
        assert(buf@ =~= fields_bytes(flatten(segs.take(2))));
        buf
    }

    /// Decodes a message.
    pub fn decode(buf: &[u8]) -> (r: Result<AttachBody, DecodeError>)
        ensures
            match attach_body_decoding(buf@) {
                Some(v) => r matches Ok(m) && m@ == v,
                None => r is Err,
            },
    {
        let fs = match decode_fields(buf) {
            Some(fs) => fs,
            None => { return Err(DecodeError); },
        };
        let msg_id = get_bytes(&fs, 1)?;
        let att_cids = get_rep_bytes(&fs, 2)?;
        Ok(AttachBody { msg_id, att_cids })
    }
}

/// Body of an operation that detaches files from a message.
#[derive(Clone, Debug, PartialEq, Eq)]
pub struct DetachBody {
    /// Id of the message.
    pub msg_id: Vec<u8>,
    /// Content ids of the chunks to detach.
    pub att_cids: Vec<Vec<u8>>,
}

/// The mathematical form of a [`DetachBody`].
pub struct DetachBodyView {
    pub msg_id: Seq<u8>,
    pub att_cids: Seq<Seq<u8>>,
}

impl View for DetachBody {
    type V = DetachBodyView;

    open spec fn view(&self) -> DetachBodyView {
        DetachBodyView {
            msg_id: self.msg_id@,
            att_cids: bytes_list_view(self.att_cids@),
        }
    }
}

/// The fields that a [`DetachBody`] is sent as, by field.
pub open spec fn detach_body_segs(m: DetachBodyView) -> Seq<Seq<SpecField>> {
    seq![
        seg_bytes(1, m.msg_id),
        seg_rep_bytes(2, m.att_cids),
    ]
}

/// The field numbers of the parts of a [`DetachBody`].
pub open spec fn detach_body_ranges() -> Seq<(u32, u32)> {
    simple_ranges(2)
}

/// The encoding of a [`DetachBody`].
pub open spec fn detach_body_encoding(m: DetachBodyView) -> Seq<u8> {
    fields_bytes(flatten(detach_body_segs(m)))
}

/// The [`DetachBody`] that a list of fields describes, if any.
pub open spec fn detach_body_from_fields(fs: Seq<SpecField>) -> Option<DetachBodyView> {
    match get_bytes_spec(fs, 1) {
        Some(x) => { let v0 = x; match get_rep_bytes_spec(fs, 2) {
        Some(x) => { let v1 = x; Some(DetachBodyView { msg_id: v0, att_cids: v1 }) },
        None => None,
    } },
        None => None,
    }
}

/// The [`DetachBody`] that bytes encode, if any.
pub open spec fn detach_body_decoding(b: Seq<u8>) -> Option<DetachBodyView> {
    match parse_fields(b) {
        Some(fs) => detach_body_from_fields(fs),
        None => None,
    }
}

/// Decoding an encoded [`DetachBody`] gives it back.
pub proof fn lemma_detach_body_round_trip(m: DetachBodyView)
    requires
        detach_body_encoding(m).len() <= u64::MAX,
    ensures
        detach_body_decoding(detach_body_encoding(m)) == Some(m),
{
    broadcast use lemma_all_in_segs;
    let segs = detach_body_segs(m);
    let ranges = detach_body_ranges();
    assert forall|k: int| 0 <= k < segs.len() implies all_in(#[trigger] segs[k], ranges[k].0, ranges[k].1) by {
        if k == 0 { } else if k == 1 { }
    }
    assert(segs_ok(segs, ranges));
    lemma_flatten_tags_ok(segs, ranges);
    lemma_parse_fields(flatten(segs));

    lemma_flatten_tag(segs, ranges, 0, 1); lemma_get_seg_bytes(1, m.msg_id);
    lemma_flatten_tag(segs, ranges, 1, 2); lemma_get_seg_rep_bytes(2, m.att_cids);
}

impl DetachBody {
    /// Encodes the message.
    pub fn encode_to_vec(&self) -> (r: Vec<u8>)
        ensures
            r@ == detach_body_encoding(self@),
    {
        let ghost segs = detach_body_segs(self@);
        let mut buf: Vec<u8> = Vec::new();
        proof { lemma_flatten_take(segs, 0); }
        put_bytes_seg(&mut buf, 1, self.msg_id.as_slice());
        proof { lemma_flatten_take(segs, 0); }
        assert(buf@ =~= fields_bytes(flatten(segs.take(1))));
        put_rep_bytes_seg(&mut buf, 2, &self.att_cids);
        proof { lemma_flatten_take(segs, 1); }
        assert(buf@ =~= fields_bytes(flatten(segs.take(2))));
        buf
    }

    /// Decodes a message.
    pub fn decode(buf: &[u8]) -> (r: Result<DetachBody, DecodeError>)
        ensures
            match detach_body_decoding(buf@) {
                Some(v) => r matches Ok(m) && m@ == v,
                None => r is Err,
            },
    {
        let fs = match decode_fields(buf) {
            Some(fs) => fs,
            None => { return Err(DecodeError); },
        };
        let msg_id = get_bytes(&fs, 1)?;
        let att_cids = get_rep_bytes(&fs, 2)?;
        Ok(DetachBody { msg_id, att_cids })
    }
}

/// Acknowledgement of the operations up to a point (for compaction).
#[derive(Clone, Debug, PartialEq, Eq)]
pub struct AckBody {
    /// Id of the last acknowledged operation.
    pub up_to_op: Vec<u8>,
    /// Wall-clock time.
    pub ts: i64,
}

/// The mathematical form of a [`AckBody`].
pub struct AckBodyView {
    pub up_to_op: Seq<u8>,
    pub ts: i64,
}

impl View for AckBody {
    type V = AckBodyView;

    open spec fn view(&self) -> AckBodyView {
        AckBodyView {
            up_to_op: self.up_to_op@,
            ts: self.ts,
        }
    }
}

/// The fields that a [`AckBody`] is sent as, by field.
pub open spec fn ack_body_segs(m: AckBodyView) -> Seq<Seq<SpecField>> {
    seq![
        seg_bytes(1, m.up_to_op),
        seg_varint(2, m.ts as u64),
    ]
}

/// The field numbers of the parts of a [`AckBody`].
pub open spec fn ack_body_ranges() -> Seq<(u32, u32)> {
    simple_ranges(2)
}

/// The encoding of a [`AckBody`].
pub open spec fn ack_body_encoding(m: AckBodyView) -> Seq<u8> {
    fields_bytes(flatten(ack_body_segs(m)))
}

/// The [`AckBody`] that a list of fields describes, if any.
pub open spec fn ack_body_from_fields(fs: Seq<SpecField>) -> Option<AckBodyView> {
    match get_bytes_spec(fs, 1) {
        Some(x) => { let v0 = x; match get_varint_spec(fs, 2) {
        Some(x) => { let v1 = x as i64; Some(AckBodyView { up_to_op: v0, ts: v1 }) },
        None => None,
    } },
        None => None,
    }
}

/// The [`AckBody`] that bytes encode, if any.
pub open spec fn ack_body_decoding(b: Seq<u8>) -> Option<AckBodyView> {
    match parse_fields(b) {
        Some(fs) => ack_body_from_fields(fs),
        None => None,
    }
}

/// Decoding an encoded [`AckBody`] gives it back.
pub proof fn lemma_ack_body_round_trip(m: AckBodyView)
    requires
        ack_body_encoding(m).len() <= u64::MAX,
    ensures
        ack_body_decoding(ack_body_encoding(m)) == Some(m),
{
    broadcast use lemma_all_in_segs;
    let segs = ack_body_segs(m);
    let ranges = ack_body_ranges();
    assert forall|k: int| 0 <= k < segs.len() implies all_in(#[trigger] segs[k], ranges[k].0, ranges[k].1) by {
        if k == 0 { } else if k == 1 { }
    }
    assert(segs_ok(segs, ranges));
    lemma_flatten_tags_ok(segs, ranges);
    lemma_parse_fields(flatten(segs));

    lemma_flatten_tag(segs, ranges, 0, 1); lemma_get_seg_bytes(1, m.up_to_op);
    lemma_flatten_tag(segs, ranges, 1, 2); lemma_get_seg_varint(2, m.ts as u64); lemma_i64_cast(m.ts);
}

impl AckBody {
    /// Encodes the message.
    pub fn encode_to_vec(&self) -> (r: Vec<u8>)
        ensures
            r@ == ack_body_encoding(self@),
    {
        let ghost segs = ack_body_segs(self@);
        let mut buf: Vec<u8> = Vec::new();
        proof { lemma_flatten_take(segs, 0); }
        put_bytes_seg(&mut buf, 1, self.up_to_op.as_slice());
        proof { lemma_flatten_take(segs, 0); }
        assert(buf@ =~= fields_bytes(flatten(segs.take(1))));
        put_varint_seg(&mut buf, 2, self.ts as u64);
        proof { lemma_flatten_take(segs, 1); }
        assert(buf@ =~= fields_bytes(flatten(segs.take(2))));
        buf
    }

    /// Decodes a message.
    pub fn decode(buf: &[u8]) -> (r: Result<AckBody, DecodeError>)
        ensures
            match ack_body_decoding(buf@) {
                Some(v) => r matches Ok(m) && m@ == v,
                None => r is Err,
            },
    {
        let fs = match decode_fields(buf) {
            Some(fs) => fs,
            None => { return Err(DecodeError); },
        };
        let up_to_op = get_bytes(&fs, 1)?;
        let ts = get_varint(&fs, 2)? as i64;
        Ok(AckBody { up_to_op, ts })
    }
}

/// Body of an operation that purges a message (hard delete).
#[derive(Clone, Debug, PartialEq, Eq)]
pub struct PurgeBody {
    /// Id of the message to purge.
    pub msg_id: Vec<u8>,
    /// Wall-clock time.
    pub ts: i64,
}

/// The mathematical form of a [`PurgeBody`].
pub struct PurgeBodyView {
    pub msg_id: Seq<u8>,
    pub ts: i64,
}

impl View for PurgeBody {
    type V = PurgeBodyView;

    open spec fn view(&self) -> PurgeBodyView {
        PurgeBodyView {
            msg_id: self.msg_id@,
            ts: self.ts,
        }
    }
}

/// The fields that a [`PurgeBody`] is sent as, by field.
pub open spec fn purge_body_segs(m: PurgeBodyView) -> Seq<Seq<SpecField>> {
    seq![
        seg_bytes(1, m.msg_id),
        seg_varint(2, m.ts as u64),
    ]
}

/// The field numbers of the parts of a [`PurgeBody`].
pub open spec fn purge_body_ranges() -> Seq<(u32, u32)> {
    simple_ranges(2)
}

/// The encoding of a [`PurgeBody`].
pub open spec fn purge_body_encoding(m: PurgeBodyView) -> Seq<u8> {
    fields_bytes(flatten(purge_body_segs(m)))
}

/// The [`PurgeBody`] that a list of fields describes, if any.
pub open spec fn purge_body_from_fields(fs: Seq<SpecField>) -> Option<PurgeBodyView> {
    match get_bytes_spec(fs, 1) {
        Some(x) => { let v0 = x; match get_varint_spec(fs, 2) {
        Some(x) => { let v1 = x as i64; Some(PurgeBodyView { msg_id: v0, ts: v1 }) },
        None => None,
    } },
        None => None,
    }
}

/// The [`PurgeBody`] that bytes encode, if any.
pub open spec fn purge_body_decoding(b: Seq<u8>) -> Option<PurgeBodyView> {
    match parse_fields(b) {
        Some(fs) => purge_body_from_fields(fs),
        None => None,
    }
}

/// Decoding an encoded [`PurgeBody`] gives it back.
pub proof fn lemma_purge_body_round_trip(m: PurgeBodyView)
    requires
        purge_body_encoding(m).len() <= u64::MAX,
    ensures
        purge_body_decoding(purge_body_encoding(m)) == Some(m),
{
    broadcast use lemma_all_in_segs;
    let segs = purge_body_segs(m);
    let ranges = purge_body_ranges();
    assert forall|k: int| 0 <= k < segs.len() implies all_in(#[trigger] segs[k], ranges[k].0, ranges[k].1) by {
        if k == 0 { } else if k == 1 { }
    }
    assert(segs_ok(segs, ranges));
    lemma_flatten_tags_ok(segs, ranges);
    lemma_parse_fields(flatten(segs));

    lemma_flatten_tag(segs, ranges, 0, 1); lemma_get_seg_bytes(1, m.msg_id);
    lemma_flatten_tag(segs, ranges, 1, 2); lemma_get_seg_varint(2, m.ts as u64); lemma_i64_cast(m.ts);
}

impl PurgeBody {
    /// Encodes the message.
    pub fn encode_to_vec(&self) -> (r: Vec<u8>)
        ensures
            r@ == purge_body_encoding(self@),
    {
        let ghost segs = purge_body_segs(self@);
        let mut buf: Vec<u8> = Vec::new();
        proof { lemma_flatten_take(segs, 0); }
        put_bytes_seg(&mut buf, 1, self.msg_id.as_slice());
        proof { lemma_flatten_take(segs, 0); }
        assert(buf@ =~= fields_bytes(flatten(segs.take(1))));
        put_varint_seg(&mut buf, 2, self.ts as u64);
        proof { lemma_flatten_take(segs, 1); }
        assert(buf@ =~= fields_bytes(flatten(segs.take(2))));
        buf
    }

    /// Decodes a message.
    pub fn decode(buf: &[u8]) -> (r: Result<PurgeBody, DecodeError>)
        ensures
            match purge_body_decoding(buf@) {
                Some(v) => r matches Ok(m) && m@ == v,
                None => r is Err,
            },
    {
        let fs = match decode_fields(buf) {
            Some(fs) => fs,
            None => { return Err(DecodeError); },
        };
        let msg_id = get_bytes(&fs, 1)?;
        let ts = get_varint(&fs, 2)? as i64;
        Ok(PurgeBody { msg_id, ts })
    }
}

/// An operation: its header and its encrypted body.
#[derive(Clone, Debug, PartialEq, Eq)]
pub struct OpEnvelope {
    /// Header with metadata and signature.
    pub header: Option<crate::protobuf::OpHeader>,
    /// AEAD-encrypted body of the operation.
    pub ciphertext: Vec<u8>,
}

/// The mathematical form of a [`OpEnvelope`].
pub struct OpEnvelopeView {
    pub header: Option<crate::protobuf::OpHeaderView>,
    pub ciphertext: Seq<u8>,
}

impl View for OpEnvelope {
    type V = OpEnvelopeView;

    open spec fn view(&self) -> OpEnvelopeView {
        OpEnvelopeView {
            header: match &self.header { Some(x) => Some(x@), None => None },
            ciphertext: self.ciphertext@,
        }
    }
}

/// The optional nested message of field `header`, decoded.
pub open spec fn op_envelope_header_decoding(o: Option<Option<Seq<u8>>>) -> Option<Option<crate::protobuf::OpHeaderView>> {
    match o {
        Some(Some(b)) => match crate::protobuf::op_header_decoding(b) {
            Some(x) => Some(Some(x)),
            None => None,
        },
        Some(None) => Some(None),
        None => None,
    }
}

/// The fields that a [`OpEnvelope`] is sent as, by field.
pub open spec fn op_envelope_segs(m: OpEnvelopeView) -> Seq<Seq<SpecField>> {
    seq![
        seg_opt_bytes(1, match m.header { Some(x) => Some(crate::protobuf::op_header_encoding(x)), None => None }),
        seg_bytes(2, m.ciphertext),
    ]
}

/// The field numbers of the parts of a [`OpEnvelope`].
pub open spec fn op_envelope_ranges() -> Seq<(u32, u32)> {
    simple_ranges(2)
}

/// The encoding of a [`OpEnvelope`].
pub open spec fn op_envelope_encoding(m: OpEnvelopeView) -> Seq<u8> {
    fields_bytes(flatten(op_envelope_segs(m)))
}

/// The [`OpEnvelope`] that a list of fields describes, if any.
pub open spec fn op_envelope_from_fields(fs: Seq<SpecField>) -> Option<OpEnvelopeView> {
    match op_envelope_header_decoding(get_opt_bytes_spec(fs, 1)) {
        Some(x) => { let v0 = x; match get_bytes_spec(fs, 2) {
        Some(x) => { let v1 = x; Some(OpEnvelopeView { header: v0, ciphertext: v1 }) },
        None => None,
    } },
        None => None,
    }
}

/// The [`OpEnvelope`] that bytes encode, if any.
pub open spec fn op_envelope_decoding(b: Seq<u8>) -> Option<OpEnvelopeView> {
    match parse_fields(b) {
        Some(fs) => op_envelope_from_fields(fs),
        None => None,
    }
}

/// Decoding an encoded [`OpEnvelope`] gives it back.
pub proof fn lemma_op_envelope_round_trip(m: OpEnvelopeView)
    requires
        op_envelope_encoding(m).len() <= u64::MAX,
    ensures
        op_envelope_decoding(op_envelope_encoding(m)) == Some(m),
{
    broadcast use lemma_all_in_segs;
    let segs = op_envelope_segs(m);
    let ranges = op_envelope_ranges();
    assert forall|k: int| 0 <= k < segs.len() implies all_in(#[trigger] segs[k], ranges[k].0, ranges[k].1) by {
        if k == 0 { } else if k == 1 { }
    }
    assert(segs_ok(segs, ranges));
    lemma_flatten_tags_ok(segs, ranges);
    lemma_parse_fields(flatten(segs));

    lemma_flatten_tag(segs, ranges, 0, 1); lemma_get_seg_opt_bytes(1, match m.header { Some(x) => Some(crate::protobuf::op_header_encoding(x)), None => None }); if let Some(x) = m.header { lemma_flatten_len(segs, 0); lemma_seg_opt_bytes_len(1, crate::protobuf::op_header_encoding(x)); crate::protobuf::lemma_op_header_round_trip(x); }
    lemma_flatten_tag(segs, ranges, 1, 2); lemma_get_seg_bytes(2, m.ciphertext);
}

impl OpEnvelope {
    /// Encodes the message.
    pub fn encode_to_vec(&self) -> (r: Vec<u8>)
        ensures
            r@ == op_envelope_encoding(self@),
    {
        let ghost segs = op_envelope_segs(self@);
        let mut buf: Vec<u8> = Vec::new();
        proof { lemma_flatten_take(segs, 0); }
        match &self.header { Some(x) => { let e = x.encode_to_vec(); put_opt_bytes_seg(&mut buf, 1, Some(e.as_slice())); }, None => { put_opt_bytes_seg(&mut buf, 1, None); } }
        proof { lemma_flatten_take(segs, 0); }
        assert(buf@ =~= fields_bytes(flatten(segs.take(1))));
        put_bytes_seg(&mut buf, 2, self.ciphertext.as_slice());
        proof { lemma_flatten_take(segs, 1); }
        assert(buf@ =~= fields_bytes(flatten(segs.take(2))));
        buf
    }

    /// Decodes a message.
    pub fn decode(buf: &[u8]) -> (r: Result<OpEnvelope, DecodeError>)
        ensures
            match op_envelope_decoding(buf@) {
                Some(v) => r matches Ok(m) && m@ == v,
                None => r is Err,
            },
    {
        let fs = match decode_fields(buf) {
            Some(fs) => fs,
            None => { return Err(DecodeError); },
        };
        let header = match get_opt_bytes(&fs, 1)? { Some(b) => Some(crate::protobuf::OpHeader::decode(b.as_slice())?), None => None };
        let ciphertext = get_bytes(&fs, 2)?;
        Ok(OpEnvelope { header, ciphertext })
    }
}

/// The encodings of a list of [`OpEnvelope`] messages.
pub open spec fn op_envelope_encodings(ms: Seq<OpEnvelopeView>) -> Seq<Seq<u8>> {
    Seq::new(ms.len(), |i: int| op_envelope_encoding(ms[i]))
}

/// The [`OpEnvelope`] messages that a list of byte strings encode, if each does.
pub open spec fn op_envelope_decode_all(bs: Seq<Seq<u8>>) -> Option<Seq<OpEnvelopeView>>
    decreases bs.len(),
{
    if bs.len() == 0 {
        Some(Seq::empty())
    } else {
        match op_envelope_decoding(bs[0]) {
            Some(x) => match op_envelope_decode_all(bs.drop_first()) {
                Some(r) => Some(seq![x] + r),
                None => None,
            },
            None => None,
        }
    }
}

/// Decoding encoded [`OpEnvelope`] messages gives them back.
pub proof fn lemma_op_envelope_decode_all(ms: Seq<OpEnvelopeView>)
    requires
        forall|j: int| 0 <= j < ms.len() ==> #[trigger] op_envelope_encoding(ms[j]).len() <= u64::MAX,
    ensures
        op_envelope_decode_all(op_envelope_encodings(ms)) == Some(ms),
    decreases ms.len(),
{
    if ms.len() > 0 {
        assert(op_envelope_encoding(ms[0]).len() <= u64::MAX);
        lemma_op_envelope_round_trip(ms[0]);
        assert(op_envelope_encodings(ms).drop_first() =~= op_envelope_encodings(ms.drop_first()));
        assert forall|j: int| 0 <= j < ms.drop_first().len() implies #[trigger] op_envelope_encoding(ms.drop_first()[j]).len() <= u64::MAX by {
            assert(ms.drop_first()[j] == ms[j + 1]);
        }
        lemma_op_envelope_decode_all(ms.drop_first());
        assert(seq![ms[0]] + ms.drop_first() =~= ms);
    } else {
        assert(ms =~= Seq::<OpEnvelopeView>::empty());
    }
}

/// Encodes each message of a list.
pub fn op_envelope_encode_all_exec(v: &Vec<OpEnvelope>) -> (r: Vec<Vec<u8>>)
    ensures
        bytes_list_view(r@) == op_envelope_encodings(Seq::new(v@.len(), |j: int| v@[j]@)),
{
    let mut r: Vec<Vec<u8>> = Vec::new();
    let mut i: usize = 0;
    while i < v.len()
        invariant
            i <= v@.len(),
            r@.len() == i,
            forall|j: int| 0 <= j < i ==> #[trigger] r@[j]@ == op_envelope_encoding(v@[j]@),
        decreases v@.len() - i,
    {
        let e = v[i].encode_to_vec();
        r.push(e);
        i = i + 1;
    }
    assert(bytes_list_view(r@) =~= op_envelope_encodings(Seq::new(v@.len(), |j: int| v@[j]@)));
    r
}

/// Decodes each byte string of a list.
pub fn op_envelope_decode_all_exec(bs: &Vec<Vec<u8>>) -> (r: Result<Vec<OpEnvelope>, DecodeError>)
    ensures
        match op_envelope_decode_all(bytes_list_view(bs@)) {
            Some(ms) => r matches Ok(v) && Seq::new(v@.len(), |j: int| v@[j]@) == ms,
            None => r is Err,
        },
{
    let ghost bl = bytes_list_view(bs@);
    let mut out: Vec<OpEnvelope> = Vec::new();
    let mut i: usize = 0;
    proof {
        assert(bl.skip(0) =~= bl);
        match op_envelope_decode_all(bl) {
            Some(rest) => { assert(Seq::new(out@.len(), |j: int| out@[j]@) + rest =~= rest); },
            None => {},
        }
    }
    while i < bs.len()
        invariant
            i <= bs@.len(),
            bl == bytes_list_view(bs@),
            op_envelope_decode_all(bl) == (match op_envelope_decode_all(bl.skip(i as int)) {
                Some(rest) => Some(Seq::new(out@.len(), |j: int| out@[j]@) + rest),
                None => None,
            }),
        decreases bs@.len() - i,
    {
        let ghost t = bl.skip(i as int);
        proof {
            assert(t[0] == bs@[i as int]@);
            assert(t.drop_first() =~= bl.skip(i + 1));
        }
        let x = OpEnvelope::decode(bs[i].as_slice())?;
        proof {
            let before = Seq::new(out@.len(), |j: int| out@[j]@);
            match op_envelope_decode_all(bl.skip(i + 1)) {
                Some(rest) => {
                    assert(before + (seq![x@] + rest) =~= Seq::new(out@.len() + 1, |j: int| out@.push(x)[j]@) + rest);
                },
                None => {},
            }
        }
        out.push(x);
        i = i + 1;
    }
    proof {
        assert(bl.skip(bs@.len() as int) =~= Seq::<Seq<u8>>::empty());
        assert(Seq::new(out@.len(), |j: int| out@[j]@) + Seq::<OpEnvelopeView>::empty() =~= Seq::new(out@.len(), |j: int| out@[j]@));
    }
    Ok(out)
}

/// Announcement of the heads of a feed.
#[derive(Clone, Debug, PartialEq, Eq)]
pub struct AnnounceHeads {
    /// Feed identifier.
    pub feed_id: String,
    /// Latest Lamport time.
    pub lamport: u64,
    /// Hashes of the operations at the frontier.
    pub heads: Vec<Vec<u8>>,
}

/// The mathematical form of a [`AnnounceHeads`].
pub struct AnnounceHeadsView {
    pub feed_id: Seq<char>,
    pub lamport: u64,
    pub heads: Seq<Seq<u8>>,
}

impl View for AnnounceHeads {
    type V = AnnounceHeadsView;

    open spec fn view(&self) -> AnnounceHeadsView {
        AnnounceHeadsView {
            feed_id: self.feed_id@,
            lamport: self.lamport,
            heads: bytes_list_view(self.heads@),
        }
    }
}

/// The fields that a [`AnnounceHeads`] is sent as, by field.
pub open spec fn announce_heads_segs(m: AnnounceHeadsView) -> Seq<Seq<SpecField>> {
    seq![
        seg_bytes(1, encode_utf8(m.feed_id)),
        seg_varint(2, m.lamport),
        seg_rep_bytes(3, m.heads),
    ]
}

/// The field numbers of the parts of a [`AnnounceHeads`].
pub open spec fn announce_heads_ranges() -> Seq<(u32, u32)> {
    simple_ranges(3)
}

/// The encoding of a [`AnnounceHeads`].
pub open spec fn announce_heads_encoding(m: AnnounceHeadsView) -> Seq<u8> {
    fields_bytes(flatten(announce_heads_segs(m)))
}

/// The [`AnnounceHeads`] that a list of fields describes, if any.
pub open spec fn announce_heads_from_fields(fs: Seq<SpecField>) -> Option<AnnounceHeadsView> {
    match get_string_spec(fs, 1) {
        Some(x) => { let v0 = x; match get_varint_spec(fs, 2) {
        Some(x) => { let v1 = x; match get_rep_bytes_spec(fs, 3) {
        Some(x) => { let v2 = x; Some(AnnounceHeadsView { feed_id: v0, lamport: v1, heads: v2 }) },
        None => None,
    } },
        None => None,
    } },
        None => None,
    }
}

/// The [`AnnounceHeads`] that bytes encode, if any.
pub open spec fn announce_heads_decoding(b: Seq<u8>) -> Option<AnnounceHeadsView> {
    match parse_fields(b) {
        Some(fs) => announce_heads_from_fields(fs),
        None => None,
    }
}

/// Decoding an encoded [`AnnounceHeads`] gives it back.
pub proof fn lemma_announce_heads_round_trip(m: AnnounceHeadsView)
    requires
        announce_heads_encoding(m).len() <= u64::MAX,
    ensures
        announce_heads_decoding(announce_heads_encoding(m)) == Some(m),
{
    broadcast use lemma_all_in_segs;
    let segs = announce_heads_segs(m);
    let ranges = announce_heads_ranges();
    assert forall|k: int| 0 <= k < segs.len() implies all_in(#[trigger] segs[k], ranges[k].0, ranges[k].1) by {
        if k == 0 { } else if k == 1 { } else if k == 2 { }
    }
    assert(segs_ok(segs, ranges));
    lemma_flatten_tags_ok(segs, ranges);
    lemma_parse_fields(flatten(segs));

    lemma_flatten_tag(segs, ranges, 0, 1); lemma_get_seg_string(1, m.feed_id);
    lemma_flatten_tag(segs, ranges, 1, 2); lemma_get_seg_varint(2, m.lamport);
    lemma_flatten_tag(segs, ranges, 2, 3); lemma_get_seg_rep_bytes(3, m.heads);
}

impl AnnounceHeads {
    /// Encodes the message.
    pub fn encode_to_vec(&self) -> (r: Vec<u8>)
        ensures
            r@ == announce_heads_encoding(self@),
    {
        let ghost segs = announce_heads_segs(self@);
        let mut buf: Vec<u8> = Vec::new();
        proof { lemma_flatten_take(segs, 0); }
        put_string_seg(&mut buf, 1, &self.feed_id);
        proof { lemma_flatten_take(segs, 0); }
        assert(buf@ =~= fields_bytes(flatten(segs.take(1))));
        put_varint_seg(&mut buf, 2, self.lamport);
        proof { lemma_flatten_take(segs, 1); }
        assert(buf@ =~= fields_bytes(flatten(segs.take(2))));
        put_rep_bytes_seg(&mut buf, 3, &self.heads);
        proof { lemma_flatten_take(segs, 2); }
        assert(buf@ =~= fields_bytes(flatten(segs.take(3))));
        buf
    }

    /// Decodes a message.
    pub fn decode(buf: &[u8]) -> (r: Result<AnnounceHeads, DecodeError>)
        ensures
            match announce_heads_decoding(buf@) {
                Some(v) => r matches Ok(m) && m@ == v,
                None => r is Err,
            },
    {
        let fs = match decode_fields(buf) {
            Some(fs) => fs,
            None => { return Err(DecodeError); },
        };
        let feed_id = get_string(&fs, 1)?;
        let lamport = get_varint(&fs, 2)?;
        let heads = get_rep_bytes(&fs, 3)?;
        Ok(AnnounceHeads { feed_id, lamport, heads })
    }
}

/// Request for the operations since some heads.
#[derive(Clone, Debug, PartialEq, Eq)]
pub struct FetchOpsReq {
    /// Heads to fetch the operations since.
    pub since_heads: Vec<Vec<u8>>,
    /// Maximum number of operations to return.
    pub want_max: u32,
}

/// The mathematical form of a [`FetchOpsReq`].
pub struct FetchOpsReqView {
    pub since_heads: Seq<Seq<u8>>,
    pub want_max: u32,
}

impl View for FetchOpsReq {
    type V = FetchOpsReqView;

    open spec fn view(&self) -> FetchOpsReqView {
        FetchOpsReqView {
            since_heads: bytes_list_view(self.since_heads@),
            want_max: self.want_max,
        }
    }
}

/// The fields that a [`FetchOpsReq`] is sent as, by field.
pub open spec fn fetch_ops_req_segs(m: FetchOpsReqView) -> Seq<Seq<SpecField>> {
    seq![
        seg_rep_bytes(1, m.since_heads),
        seg_varint(2, m.want_max as u64),
    ]
}

/// The field numbers of the parts of a [`FetchOpsReq`].
pub open spec fn fetch_ops_req_ranges() -> Seq<(u32, u32)> {
    simple_ranges(2)
}

/// The encoding of a [`FetchOpsReq`].
pub open spec fn fetch_ops_req_encoding(m: FetchOpsReqView) -> Seq<u8> {
    fields_bytes(flatten(fetch_ops_req_segs(m)))
}

/// The [`FetchOpsReq`] that a list of fields describes, if any.
pub open spec fn fetch_ops_req_from_fields(fs: Seq<SpecField>) -> Option<FetchOpsReqView> {
    match get_rep_bytes_spec(fs, 1) {
        Some(x) => { let v0 = x; match get_varint_spec(fs, 2) {
        Some(x) => { let v1 = x as u32; Some(FetchOpsReqView { since_heads: v0, want_max: v1 }) },
        None => None,
    } },
        None => None,
    }
}

/// The [`FetchOpsReq`] that bytes encode, if any.
pub open spec fn fetch_ops_req_decoding(b: Seq<u8>) -> Option<FetchOpsReqView> {
    match parse_fields(b) {
        Some(fs) => fetch_ops_req_from_fields(fs),
        None => None,
    }
}

/// Decoding an encoded [`FetchOpsReq`] gives it back.
pub proof fn lemma_fetch_ops_req_round_trip(m: FetchOpsReqView)
    requires
        fetch_ops_req_encoding(m).len() <= u64::MAX,
    ensures
        fetch_ops_req_decoding(fetch_ops_req_encoding(m)) == Some(m),
{
    broadcast use lemma_all_in_segs;
    let segs = fetch_ops_req_segs(m);
    let ranges = fetch_ops_req_ranges();
    assert forall|k: int| 0 <= k < segs.len() implies all_in(#[trigger] segs[k], ranges[k].0, ranges[k].1) by {
        if k == 0 { } else if k == 1 { }
    }
    assert(segs_ok(segs, ranges));
    lemma_flatten_tags_ok(segs, ranges);
    lemma_parse_fields(flatten(segs));

    lemma_flatten_tag(segs, ranges, 0, 1); lemma_get_seg_rep_bytes(1, m.since_heads);
    lemma_flatten_tag(segs, ranges, 1, 2); lemma_get_seg_varint(2, m.want_max as u64); lemma_u32_cast(m.want_max);
}

impl FetchOpsReq {
    /// Encodes the message.
    pub fn encode_to_vec(&self) -> (r: Vec<u8>)
        ensures
            r@ == fetch_ops_req_encoding(self@),
    {
        let ghost segs = fetch_ops_req_segs(self@);
        let mut buf: Vec<u8> = Vec::new();
        proof { lemma_flatten_take(segs, 0); }
        put_rep_bytes_seg(&mut buf, 1, &self.since_heads);
        proof { lemma_flatten_take(segs, 0); }
        assert(buf@ =~= fields_bytes(flatten(segs.take(1))));
        put_varint_seg(&mut buf, 2, self.want_max as u64);
        proof { lemma_flatten_take(segs, 1); }
        assert(buf@ =~= fields_bytes(flatten(segs.take(2))));
        buf
    }

    /// Decodes a message.
    pub fn decode(buf: &[u8]) -> (r: Result<FetchOpsReq, DecodeError>)
        ensures
            match fetch_ops_req_decoding(buf@) {
                Some(v) => r matches Ok(m) && m@ == v,
                None => r is Err,
            },
    {
        let fs = match decode_fields(buf) {
            Some(fs) => fs,
            None => { return Err(DecodeError); },
        };
        let since_heads = get_rep_bytes(&fs, 1)?;
        let want_max = get_varint(&fs, 2)? as u32;
        Ok(FetchOpsReq { since_heads, want_max })
    }
}

/// Response with the requested operations.
#[derive(Clone, Debug, PartialEq, Eq)]
pub struct FetchOpsResp {
    /// The requested operations.
    pub ops: Vec<crate::protobuf::OpEnvelope>,
    /// Newly discovered heads.
    pub new_heads: Vec<Vec<u8>>,
}

/// The mathematical form of a [`FetchOpsResp`].
pub struct FetchOpsRespView {
    pub ops: Seq<crate::protobuf::OpEnvelopeView>,
    pub new_heads: Seq<Seq<u8>>,
}

impl View for FetchOpsResp {
    type V = FetchOpsRespView;

    open spec fn view(&self) -> FetchOpsRespView {
        FetchOpsRespView {
            ops: Seq::new(self.ops@.len(), |j: int| self.ops@[j]@),
            new_heads: bytes_list_view(self.new_heads@),
        }
    }
}

/// The fields that a [`FetchOpsResp`] is sent as, by field.
pub open spec fn fetch_ops_resp_segs(m: FetchOpsRespView) -> Seq<Seq<SpecField>> {
    seq![
        seg_rep_bytes(1, crate::protobuf::op_envelope_encodings(m.ops)),
        seg_rep_bytes(2, m.new_heads),
    ]
}

/// The field numbers of the parts of a [`FetchOpsResp`].
pub open spec fn fetch_ops_resp_ranges() -> Seq<(u32, u32)> {
    simple_ranges(2)
}

/// The encoding of a [`FetchOpsResp`].
pub open spec fn fetch_ops_resp_encoding(m: FetchOpsRespView) -> Seq<u8> {
    fields_bytes(flatten(fetch_ops_resp_segs(m)))
}

/// The [`FetchOpsResp`] that a list of fields describes, if any.
pub open spec fn fetch_ops_resp_from_fields(fs: Seq<SpecField>) -> Option<FetchOpsRespView> {
    match match get_rep_bytes_spec(fs, 1) { Some(bs) => crate::protobuf::op_envelope_decode_all(bs), None => None } {
        Some(x) => { let v0 = x; match get_rep_bytes_spec(fs, 2) {
        Some(x) => { let v1 = x; Some(FetchOpsRespView { ops: v0, new_heads: v1 }) },
        None => None,
    } },
        None => None,
    }
}

/// The [`FetchOpsResp`] that bytes encode, if any.
pub open spec fn fetch_ops_resp_decoding(b: Seq<u8>) -> Option<FetchOpsRespView> {
    match parse_fields(b) {
        Some(fs) => fetch_ops_resp_from_fields(fs),
        None => None,
    }
}

/// Decoding an encoded [`FetchOpsResp`] gives it back.
pub proof fn lemma_fetch_ops_resp_round_trip(m: FetchOpsRespView)
    requires
        fetch_ops_resp_encoding(m).len() <= u64::MAX,
    ensures
        fetch_ops_resp_decoding(fetch_ops_resp_encoding(m)) == Some(m),
{
    broadcast use lemma_all_in_segs;
    let segs = fetch_ops_resp_segs(m);
    let ranges = fetch_ops_resp_ranges();
    assert forall|k: int| 0 <= k < segs.len() implies all_in(#[trigger] segs[k], ranges[k].0, ranges[k].1) by {
        if k == 0 { } else if k == 1 { }
    }
    assert(segs_ok(segs, ranges));
    lemma_flatten_tags_ok(segs, ranges);
    lemma_parse_fields(flatten(segs));

    lemma_flatten_tag(segs, ranges, 0, 1);
    lemma_get_seg_rep_bytes(1, crate::protobuf::op_envelope_encodings(m.ops));
    assert forall|j: int| 0 <= j < m.ops.len() implies #[trigger] crate::protobuf::op_envelope_encoding(m.ops[j]).len() <= u64::MAX by {
        lemma_flatten_len(segs, 0);
        lemma_seg_rep_bytes_len(1, crate::protobuf::op_envelope_encodings(m.ops), j);
    }
    crate::protobuf::lemma_op_envelope_decode_all(m.ops);
    lemma_flatten_tag(segs, ranges, 1, 2); lemma_get_seg_rep_bytes(2, m.new_heads);
}

impl FetchOpsResp {
    /// Encodes the message.
    pub fn encode_to_vec(&self) -> (r: Vec<u8>)
        ensures
            r@ == fetch_ops_resp_encoding(self@),
    {
        let ghost segs = fetch_ops_resp_segs(self@);
        let mut buf: Vec<u8> = Vec::new();
        proof { lemma_flatten_take(segs, 0); }
        { let encs = crate::protobuf::op_envelope_encode_all_exec(&self.ops); put_rep_bytes_seg(&mut buf, 1, &encs); }
        proof { lemma_flatten_take(segs, 0); }
        assert(buf@ =~= fields_bytes(flatten(segs.take(1))));
        put_rep_bytes_seg(&mut buf, 2, &self.new_heads);
        proof { lemma_flatten_take(segs, 1); }
        assert(buf@ =~= fields_bytes(flatten(segs.take(2))));
        buf
    }

    /// Decodes a message.
    pub fn decode(buf: &[u8]) -> (r: Result<FetchOpsResp, DecodeError>)
        ensures
            match fetch_ops_resp_decoding(buf@) {
                Some(v) => r matches Ok(m) && m@ == v,
                None => r is Err,
            },
    {
        let fs = match decode_fields(buf) {
            Some(fs) => fs,
            None => { return Err(DecodeError); },
        };
        let ops = crate::protobuf::op_envelope_decode_all_exec(&get_rep_bytes(&fs, 1)?)?;
        let new_heads = get_rep_bytes(&fs, 2)?;
        Ok(FetchOpsResp { ops, new_heads })
    }
}

/// Request to learn which chunks a peer has.
#[derive(Clone, Debug, PartialEq, Eq)]
pub struct HaveChunksReq {
    /// Content ids of the chunks.
    pub cids: Vec<Vec<u8>>,
}

/// The mathematical form of a [`HaveChunksReq`].
pub struct HaveChunksReqView {
    pub cids: Seq<Seq<u8>>,
}

impl View for HaveChunksReq {
    type V = HaveChunksReqView;

    open spec fn view(&self) -> HaveChunksReqView {
        HaveChunksReqView {
            cids: bytes_list_view(self.cids@),
        }
    }
}

/// The fields that a [`HaveChunksReq`] is sent as, by field.
pub open spec fn have_chunks_req_segs(m: HaveChunksReqView) -> Seq<Seq<SpecField>> {
    seq![
        seg_rep_bytes(1, m.cids),
    ]
}

/// The field numbers of the parts of a [`HaveChunksReq`].
pub open spec fn have_chunks_req_ranges() -> Seq<(u32, u32)> {
    simple_ranges(1)
}

/// The encoding of a [`HaveChunksReq`].
pub open spec fn have_chunks_req_encoding(m: HaveChunksReqView) -> Seq<u8> {
    fields_bytes(flatten(have_chunks_req_segs(m)))
}

/// The [`HaveChunksReq`] that a list of fields describes, if any.
pub open spec fn have_chunks_req_from_fields(fs: Seq<SpecField>) -> Option<HaveChunksReqView> {
    match get_rep_bytes_spec(fs, 1) {
        Some(x) => { let v0 = x; Some(HaveChunksReqView { cids: v0 }) },
        None => None,
    }
}

/// The [`HaveChunksReq`] that bytes encode, if any.
pub open spec fn have_chunks_req_decoding(b: Seq<u8>) -> Option<HaveChunksReqView> {
    match parse_fields(b) {
        Some(fs) => have_chunks_req_from_fields(fs),
        None => None,
    }
}

/// Decoding an encoded [`HaveChunksReq`] gives it back.
pub proof fn lemma_have_chunks_req_round_trip(m: HaveChunksReqView)
    requires
        have_chunks_req_encoding(m).len() <= u64::MAX,
    ensures
        have_chunks_req_decoding(have_chunks_req_encoding(m)) == Some(m),
{
    broadcast use lemma_all_in_segs;
    let segs = have_chunks_req_segs(m);
    let ranges = have_chunks_req_ranges();
    assert forall|k: int| 0 <= k < segs.len() implies all_in(#[trigger] segs[k], ranges[k].0, ranges[k].1) by {
        if k == 0 { }
    }
    assert(segs_ok(segs, ranges));
    lemma_flatten_tags_ok(segs, ranges);
    lemma_parse_fields(flatten(segs));

    lemma_flatten_tag(segs, ranges, 0, 1); lemma_get_seg_rep_bytes(1, m.cids);
}

impl HaveChunksReq {
    /// Encodes the message.
    pub fn encode_to_vec(&self) -> (r: Vec<u8>)
        ensures
            r@ == have_chunks_req_encoding(self@),
    {
        let ghost segs = have_chunks_req_segs(self@);
        let mut buf: Vec<u8> = Vec::new();
        proof { lemma_flatten_take(segs, 0); }
        put_rep_bytes_seg(&mut buf, 1, &self.cids);
        proof { lemma_flatten_take(segs, 0); }
        assert(buf@ =~= fields_bytes(flatten(segs.take(1))));
        buf
    }

    /// Decodes a message.
    pub fn decode(buf: &[u8]) -> (r: Result<HaveChunksReq, DecodeError>)
        ensures
            match have_chunks_req_decoding(buf@) {
                Some(v) => r matches Ok(m) && m@ == v,
                None => r is Err,
            },
    {
        let fs = match decode_fields(buf) {
            Some(fs) => fs,
            None => { return Err(DecodeError); },
        };
        let cids = get_rep_bytes(&fs, 1)?;
        Ok(HaveChunksReq { cids })
    }
}

/// Which of the requested chunks a peer has.
#[derive(Clone, Debug, PartialEq, Eq)]
pub struct HaveChunksResp {
    /// One bit per chunk: 1 when the peer has it.
    pub have_bitmap: Vec<u8>,
}

/// The mathematical form of a [`HaveChunksResp`].
pub struct HaveChunksRespView {
    pub have_bitmap: Seq<u8>,
}

impl View for HaveChunksResp {
    type V = HaveChunksRespView;

    open spec fn view(&self) -> HaveChunksRespView {
        HaveChunksRespView {
            have_bitmap: self.have_bitmap@,
        }
    }
}

/// The fields that a [`HaveChunksResp`] is sent as, by field.
pub open spec fn have_chunks_resp_segs(m: HaveChunksRespView) -> Seq<Seq<SpecField>> {
    seq![
        seg_bytes(1, m.have_bitmap),
    ]
}

/// The field numbers of the parts of a [`HaveChunksResp`].
pub open spec fn have_chunks_resp_ranges() -> Seq<(u32, u32)> {
    simple_ranges(1)
}

/// The encoding of a [`HaveChunksResp`].
pub open spec fn have_chunks_resp_encoding(m: HaveChunksRespView) -> Seq<u8> {
    fields_bytes(flatten(have_chunks_resp_segs(m)))
}

/// The [`HaveChunksResp`] that a list of fields describes, if any.
pub open spec fn have_chunks_resp_from_fields(fs: Seq<SpecField>) -> Option<HaveChunksRespView> {
    match get_bytes_spec(fs, 1) {
        Some(x) => { let v0 = x; Some(HaveChunksRespView { have_bitmap: v0 }) },
        None => None,
    }
}

/// The [`HaveChunksResp`] that bytes encode, if any.
pub open spec fn have_chunks_resp_decoding(b: Seq<u8>) -> Option<HaveChunksRespView> {
    match parse_fields(b) {
        Some(fs) => have_chunks_resp_from_fields(fs),
        None => None,
    }
}

/// Decoding an encoded [`HaveChunksResp`] gives it back.
pub proof fn lemma_have_chunks_resp_round_trip(m: HaveChunksRespView)
    requires
        have_chunks_resp_encoding(m).len() <= u64::MAX,
    ensures
        have_chunks_resp_decoding(have_chunks_resp_encoding(m)) == Some(m),
{
    broadcast use lemma_all_in_segs;
    let segs = have_chunks_resp_segs(m);
    let ranges = have_chunks_resp_ranges();
    assert forall|k: int| 0 <= k < segs.len() implies all_in(#[trigger] segs[k], ranges[k].0, ranges[k].1) by {
        if k == 0 { }
    }
    assert(segs_ok(segs, ranges));
    lemma_flatten_tags_ok(segs, ranges);
    lemma_parse_fields(flatten(segs));

    lemma_flatten_tag(segs, ranges, 0, 1); lemma_get_seg_bytes(1, m.have_bitmap);
}

impl HaveChunksResp {
    /// Encodes the message.
    pub fn encode_to_vec(&self) -> (r: Vec<u8>)
        ensures
            r@ == have_chunks_resp_encoding(self@),
    {
        let ghost segs = have_chunks_resp_segs(self@);
        let mut buf: Vec<u8> = Vec::new();
        proof { lemma_flatten_take(segs, 0); }
        put_bytes_seg(&mut buf, 1, self.have_bitmap.as_slice());
        proof { lemma_flatten_take(segs, 0); }
        assert(buf@ =~= fields_bytes(flatten(segs.take(1))));
        buf
    }

    /// Decodes a message.
    pub fn decode(buf: &[u8]) -> (r: Result<HaveChunksResp, DecodeError>)
        ensures
            match have_chunks_resp_decoding(buf@) {
                Some(v) => r matches Ok(m) && m@ == v,
                None => r is Err,
            },
    {
        let fs = match decode_fields(buf) {
            Some(fs) => fs,
            None => { return Err(DecodeError); },
        };
        let have_bitmap = get_bytes(&fs, 1)?;
        Ok(HaveChunksResp { have_bitmap })
    }
}

/// Request for specific chunks.
#[derive(Clone, Debug, PartialEq, Eq)]
pub struct FetchChunksReq {
    /// Content ids of the chunks.
    pub cids: Vec<Vec<u8>>,
}

/// The mathematical form of a [`FetchChunksReq`].
pub struct FetchChunksReqView {
    pub cids: Seq<Seq<u8>>,
}

impl View for FetchChunksReq {
    type V = FetchChunksReqView;

    open spec fn view(&self) -> FetchChunksReqView {
        FetchChunksReqView {
            cids: bytes_list_view(self.cids@),
        }
    }
}

/// The fields that a [`FetchChunksReq`] is sent as, by field.
pub open spec fn fetch_chunks_req_segs(m: FetchChunksReqView) -> Seq<Seq<SpecField>> {
    seq![
        seg_rep_bytes(1, m.cids),
    ]
}

/// The field numbers of the parts of a [`FetchChunksReq`].
pub open spec fn fetch_chunks_req_ranges() -> Seq<(u32, u32)> {
    simple_ranges(1)
}

/// The encoding of a [`FetchChunksReq`].
pub open spec fn fetch_chunks_req_encoding(m: FetchChunksReqView) -> Seq<u8> {
    fields_bytes(flatten(fetch_chunks_req_segs(m)))
}

/// The [`FetchChunksReq`] that a list of fields describes, if any.
pub open spec fn fetch_chunks_req_from_fields(fs: Seq<SpecField>) -> Option<FetchChunksReqView> {
    match get_rep_bytes_spec(fs, 1) {
        Some(x) => { let v0 = x; Some(FetchChunksReqView { cids: v0 }) },
        None => None,
    }
}

/// The [`FetchChunksReq`] that bytes encode, if any.
pub open spec fn fetch_chunks_req_decoding(b: Seq<u8>) -> Option<FetchChunksReqView> {
    match parse_fields(b) {
        Some(fs) => fetch_chunks_req_from_fields(fs),
        None => None,
    }
}

/// Decoding an encoded [`FetchChunksReq`] gives it back.
pub proof fn lemma_fetch_chunks_req_round_trip(m: FetchChunksReqView)
    requires
        fetch_chunks_req_encoding(m).len() <= u64::MAX,
    ensures
        fetch_chunks_req_decoding(fetch_chunks_req_encoding(m)) == Some(m),
{
    broadcast use lemma_all_in_segs;
    let segs = fetch_chunks_req_segs(m);
    let ranges = fetch_chunks_req_ranges();
    assert forall|k: int| 0 <= k < segs.len() implies all_in(#[trigger] segs[k], ranges[k].0, ranges[k].1) by {
        if k == 0 { }
    }
    assert(segs_ok(segs, ranges));
    lemma_flatten_tags_ok(segs, ranges);
    lemma_parse_fields(flatten(segs));

    lemma_flatten_tag(segs, ranges, 0, 1); lemma_get_seg_rep_bytes(1, m.cids);
}

impl FetchChunksReq {
    /// Encodes the message.
    pub fn encode_to_vec(&self) -> (r: Vec<u8>)
        ensures
            r@ == fetch_chunks_req_encoding(self@),
    {
        let ghost segs = fetch_chunks_req_segs(self@);
        let mut buf: Vec<u8> = Vec::new();
        proof { lemma_flatten_take(segs, 0); }
        put_rep_bytes_seg(&mut buf, 1, &self.cids);
        proof { lemma_flatten_take(segs, 0); }
        assert(buf@ =~= fields_bytes(flatten(segs.take(1))));
        buf
    }

    /// Decodes a message.
    pub fn decode(buf: &[u8]) -> (r: Result<FetchChunksReq, DecodeError>)
        ensures
            match fetch_chunks_req_decoding(buf@) {
                Some(v) => r matches Ok(m) && m@ == v,
                None => r is Err,
            },
    {
        let fs = match decode_fields(buf) {
            Some(fs) => fs,
            None => { return Err(DecodeError); },
        };
        let cids = get_rep_bytes(&fs, 1)?;
        Ok(FetchChunksReq { cids })
    }
}

/// Response with the requested chunks.
#[derive(Clone, Debug, PartialEq, Eq)]
pub struct FetchChunksResp {
    /// The chunks.
    pub chunks: Vec<crate::protobuf::fetch_chunks_resp::Chunk>,
}

/// The mathematical form of a [`FetchChunksResp`].
pub struct FetchChunksRespView {
    pub chunks: Seq<crate::protobuf::fetch_chunks_resp::ChunkView>,
}

impl View for FetchChunksResp {
    type V = FetchChunksRespView;

    open spec fn view(&self) -> FetchChunksRespView {
        FetchChunksRespView {
            chunks: Seq::new(self.chunks@.len(), |j: int| self.chunks@[j]@),
        }
    }
}

/// The fields that a [`FetchChunksResp`] is sent as, by field.
pub open spec fn fetch_chunks_resp_segs(m: FetchChunksRespView) -> Seq<Seq<SpecField>> {
    seq![
        seg_rep_bytes(1, crate::protobuf::fetch_chunks_resp::chunk_encodings(m.chunks)),
    ]
}

/// The field numbers of the parts of a [`FetchChunksResp`].
pub open spec fn fetch_chunks_resp_ranges() -> Seq<(u32, u32)> {
    simple_ranges(1)
}

/// The encoding of a [`FetchChunksResp`].
pub open spec fn fetch_chunks_resp_encoding(m: FetchChunksRespView) -> Seq<u8> {
    fields_bytes(flatten(fetch_chunks_resp_segs(m)))
}

/// The [`FetchChunksResp`] that a list of fields describes, if any.
pub open spec fn fetch_chunks_resp_from_fields(fs: Seq<SpecField>) -> Option<FetchChunksRespView> {
    match match get_rep_bytes_spec(fs, 1) { Some(bs) => crate::protobuf::fetch_chunks_resp::chunk_decode_all(bs), None => None } {
        Some(x) => { let v0 = x; Some(FetchChunksRespView { chunks: v0 }) },
        None => None,
    }
}

/// The [`FetchChunksResp`] that bytes encode, if any.
pub open spec fn fetch_chunks_resp_decoding(b: Seq<u8>) -> Option<FetchChunksRespView> {
    match parse_fields(b) {
        Some(fs) => fetch_chunks_resp_from_fields(fs),
        None => None,
    }
}

/// Decoding an encoded [`FetchChunksResp`] gives it back.
pub proof fn lemma_fetch_chunks_resp_round_trip(m: FetchChunksRespView)
    requires
        fetch_chunks_resp_encoding(m).len() <= u64::MAX,
    ensures
        fetch_chunks_resp_decoding(fetch_chunks_resp_encoding(m)) == Some(m),
{
    broadcast use lemma_all_in_segs;
    let segs = fetch_chunks_resp_segs(m);
    let ranges = fetch_chunks_resp_ranges();
    assert forall|k: int| 0 <= k < segs.len() implies all_in(#[trigger] segs[k], ranges[k].0, ranges[k].1) by {
        if k == 0 { }
    }
    assert(segs_ok(segs, ranges));
    lemma_flatten_tags_ok(segs, ranges);
    lemma_parse_fields(flatten(segs));

    lemma_flatten_tag(segs, ranges, 0, 1);
    lemma_get_seg_rep_bytes(1, crate::protobuf::fetch_chunks_resp::chunk_encodings(m.chunks));
    assert forall|j: int| 0 <= j < m.chunks.len() implies #[trigger] crate::protobuf::fetch_chunks_resp::chunk_encoding(m.chunks[j]).len() <= u64::MAX by {
        lemma_flatten_len(segs, 0);
        lemma_seg_rep_bytes_len(1, crate::protobuf::fetch_chunks_resp::chunk_encodings(m.chunks), j);
    }
    crate::protobuf::fetch_chunks_resp::lemma_chunk_decode_all(m.chunks);
}

impl FetchChunksResp {
    /// Encodes the message.
    pub fn encode_to_vec(&self) -> (r: Vec<u8>)
        ensures
            r@ == fetch_chunks_resp_encoding(self@),
    {
        let ghost segs = fetch_chunks_resp_segs(self@);
        let mut buf: Vec<u8> = Vec::new();
        proof { lemma_flatten_take(segs, 0); }
        { let encs = crate::protobuf::fetch_chunks_resp::chunk_encode_all_exec(&self.chunks); put_rep_bytes_seg(&mut buf, 1, &encs); }
        proof { lemma_flatten_take(segs, 0); }
        assert(buf@ =~= fields_bytes(flatten(segs.take(1))));
        buf
    }

    /// Decodes a message.
    pub fn decode(buf: &[u8]) -> (r: Result<FetchChunksResp, DecodeError>)
        ensures
            match fetch_chunks_resp_decoding(buf@) {
                Some(v) => r matches Ok(m) && m@ == v,
                None => r is Err,
            },
    {
        let fs = match decode_fields(buf) {
            Some(fs) => fs,
            None => { return Err(DecodeError); },
        };
        let chunks = crate::protobuf::fetch_chunks_resp::chunk_decode_all_exec(&get_rep_bytes(&fs, 1)?)?;
        Ok(FetchChunksResp { chunks })
    }
}

/// Request for the attachment metadata of messages.
#[derive(Clone, Debug, PartialEq, Eq)]
pub struct RequestAttachmentMetadataReq {
    /// Ids of the messages.
    pub message_ids: Vec<Vec<u8>>,
    /// Ids of specific attachments, if any.
    pub attachment_ids: Vec<i64>,
}

/// The mathematical form of a [`RequestAttachmentMetadataReq`].
pub struct RequestAttachmentMetadataReqView {
    pub message_ids: Seq<Seq<u8>>,
    pub attachment_ids: Seq<i64>,
}

impl View for RequestAttachmentMetadataReq {
    type V = RequestAttachmentMetadataReqView;

    open spec fn view(&self) -> RequestAttachmentMetadataReqView {
        RequestAttachmentMetadataReqView {
            message_ids: bytes_list_view(self.message_ids@),
            attachment_ids: self.attachment_ids@,
        }
    }
}

/// The fields that a [`RequestAttachmentMetadataReq`] is sent as, by field.
pub open spec fn request_attachment_metadata_req_segs(m: RequestAttachmentMetadataReqView) -> Seq<Seq<SpecField>> {
    seq![
        seg_rep_bytes(1, m.message_ids),
        seg_packed(2, i64s_bits(m.attachment_ids)),
    ]
}

/// The field numbers of the parts of a [`RequestAttachmentMetadataReq`].
pub open spec fn request_attachment_metadata_req_ranges() -> Seq<(u32, u32)> {
    simple_ranges(2)
}

/// The encoding of a [`RequestAttachmentMetadataReq`].
pub open spec fn request_attachment_metadata_req_encoding(m: RequestAttachmentMetadataReqView) -> Seq<u8> {
    fields_bytes(flatten(request_attachment_metadata_req_segs(m)))
}

/// The [`RequestAttachmentMetadataReq`] that a list of fields describes, if any.
pub open spec fn request_attachment_metadata_req_from_fields(fs: Seq<SpecField>) -> Option<RequestAttachmentMetadataReqView> {
    match get_rep_bytes_spec(fs, 1) {
        Some(x) => { let v0 = x; match get_packed_spec(fs, 2) {
        Some(x) => { let v1 = Seq::new(x.len(), |j: int| x[j] as i64); Some(RequestAttachmentMetadataReqView { message_ids: v0, attachment_ids: v1 }) },
        None => None,
    } },
        None => None,
    }
}

/// The [`RequestAttachmentMetadataReq`] that bytes encode, if any.
pub open spec fn request_attachment_metadata_req_decoding(b: Seq<u8>) -> Option<RequestAttachmentMetadataReqView> {
    match parse_fields(b) {
        Some(fs) => request_attachment_metadata_req_from_fields(fs),
        None => None,
    }
}

/// Decoding an encoded [`RequestAttachmentMetadataReq`] gives it back.
pub proof fn lemma_request_attachment_metadata_req_round_trip(m: RequestAttachmentMetadataReqView)
    requires
        request_attachment_metadata_req_encoding(m).len() <= u64::MAX,
    ensures
        request_attachment_metadata_req_decoding(request_attachment_metadata_req_encoding(m)) == Some(m),
{
    broadcast use lemma_all_in_segs;
    let segs = request_attachment_metadata_req_segs(m);
    let ranges = request_attachment_metadata_req_ranges();
    assert forall|k: int| 0 <= k < segs.len() implies all_in(#[trigger] segs[k], ranges[k].0, ranges[k].1) by {
        if k == 0 { } else if k == 1 { }
    }
    assert(segs_ok(segs, ranges));
    lemma_flatten_tags_ok(segs, ranges);
    lemma_parse_fields(flatten(segs));

    lemma_flatten_tag(segs, ranges, 0, 1); lemma_get_seg_rep_bytes(1, m.message_ids);
    lemma_flatten_tag(segs, ranges, 1, 2); lemma_get_seg_packed(2, i64s_bits(m.attachment_ids)); lemma_i64s_round_trip(m.attachment_ids);
}

impl RequestAttachmentMetadataReq {
    /// Encodes the message.
    pub fn encode_to_vec(&self) -> (r: Vec<u8>)
        ensures
            r@ == request_attachment_metadata_req_encoding(self@),
    {
        let ghost segs = request_attachment_metadata_req_segs(self@);
        let mut buf: Vec<u8> = Vec::new();
        proof { lemma_flatten_take(segs, 0); }
        put_rep_bytes_seg(&mut buf, 1, &self.message_ids);
        proof { lemma_flatten_take(segs, 0); }
        assert(buf@ =~= fields_bytes(flatten(segs.take(1))));
        { let bits = i64s_to_bits(&self.attachment_ids); put_packed_seg(&mut buf, 2, &bits); }
        proof { lemma_flatten_take(segs, 1); }
        assert(buf@ =~= fields_bytes(flatten(segs.take(2))));
        buf
    }

    /// Decodes a message.
    pub fn decode(buf: &[u8]) -> (r: Result<RequestAttachmentMetadataReq, DecodeError>)
        ensures
            match request_attachment_metadata_req_decoding(buf@) {
                Some(v) => r matches Ok(m) && m@ == v,
                None => r is Err,
            },
    {
        let fs = match decode_fields(buf) {
            Some(fs) => fs,
            None => { return Err(DecodeError); },
        };
        let message_ids = get_rep_bytes(&fs, 1)?;
        let attachment_ids = bits_to_i64s(&get_packed(&fs, 2)?);
        Ok(RequestAttachmentMetadataReq { message_ids, attachment_ids })
    }
}

/// Response with attachment metadata.
#[derive(Clone, Debug, PartialEq, Eq)]
pub struct RequestAttachmentMetadataResp {
    /// The metadata.
    pub attachments: Vec<crate::protobuf::request_attachment_metadata_resp::AttachmentMetadata>,
}

/// The mathematical form of a [`RequestAttachmentMetadataResp`].
pub struct RequestAttachmentMetadataRespView {
    pub attachments: Seq<crate::protobuf::request_attachment_metadata_resp::AttachmentMetadataView>,
}

impl View for RequestAttachmentMetadataResp {
    type V = RequestAttachmentMetadataRespView;

    open spec fn view(&self) -> RequestAttachmentMetadataRespView {
        RequestAttachmentMetadataRespView {
            attachments: Seq::new(self.attachments@.len(), |j: int| self.attachments@[j]@),
        }
    }
}

/// The fields that a [`RequestAttachmentMetadataResp`] is sent as, by field.
pub open spec fn request_attachment_metadata_resp_segs(m: RequestAttachmentMetadataRespView) -> Seq<Seq<SpecField>> {
    seq![
        seg_rep_bytes(1, crate::protobuf::request_attachment_metadata_resp::attachment_metadata_encodings(m.attachments)),
    ]
}

/// The field numbers of the parts of a [`RequestAttachmentMetadataResp`].
pub open spec fn request_attachment_metadata_resp_ranges() -> Seq<(u32, u32)> {
    simple_ranges(1)
}

/// The encoding of a [`RequestAttachmentMetadataResp`].
pub open spec fn request_attachment_metadata_resp_encoding(m: RequestAttachmentMetadataRespView) -> Seq<u8> {
    fields_bytes(flatten(request_attachment_metadata_resp_segs(m)))
}

/// The [`RequestAttachmentMetadataResp`] that a list of fields describes, if any.
pub open spec fn request_attachment_metadata_resp_from_fields(fs: Seq<SpecField>) -> Option<RequestAttachmentMetadataRespView> {
    match match get_rep_bytes_spec(fs, 1) { Some(bs) => crate::protobuf::request_attachment_metadata_resp::attachment_metadata_decode_all(bs), None => None } {
        Some(x) => { let v0 = x; Some(RequestAttachmentMetadataRespView { attachments: v0 }) },
        None => None,
    }
}

/// The [`RequestAttachmentMetadataResp`] that bytes encode, if any.
pub open spec fn request_attachment_metadata_resp_decoding(b: Seq<u8>) -> Option<RequestAttachmentMetadataRespView> {
    match parse_fields(b) {
        Some(fs) => request_attachment_metadata_resp_from_fields(fs),
        None => None,
    }
}

/// Decoding an encoded [`RequestAttachmentMetadataResp`] gives it back.
pub proof fn lemma_request_attachment_metadata_resp_round_trip(m: RequestAttachmentMetadataRespView)
    requires
        request_attachment_metadata_resp_encoding(m).len() <= u64::MAX,
    ensures
        request_attachment_metadata_resp_decoding(request_attachment_metadata_resp_encoding(m)) == Some(m),
{
    broadcast use lemma_all_in_segs;
    let segs = request_attachment_metadata_resp_segs(m);
    let ranges = request_attachment_metadata_resp_ranges();
    assert forall|k: int| 0 <= k < segs.len() implies all_in(#[trigger] segs[k], ranges[k].0, ranges[k].1) by {
        if k == 0 { }
    }
    assert(segs_ok(segs, ranges));
    lemma_flatten_tags_ok(segs, ranges);
    lemma_parse_fields(flatten(segs));

    lemma_flatten_tag(segs, ranges, 0, 1);
    lemma_get_seg_rep_bytes(1, crate::protobuf::request_attachment_metadata_resp::attachment_metadata_encodings(m.attachments));
    assert forall|j: int| 0 <= j < m.attachments.len() implies #[trigger] crate::protobuf::request_attachment_metadata_resp::attachment_metadata_encoding(m.attachments[j]).len() <= u64::MAX by {
        lemma_flatten_len(segs, 0);
        lemma_seg_rep_bytes_len(1, crate::protobuf::request_attachment_metadata_resp::attachment_metadata_encodings(m.attachments), j);
    }
    crate::protobuf::request_attachment_metadata_resp::lemma_attachment_metadata_decode_all(m.attachments);
}

impl RequestAttachmentMetadataResp {
    /// Encodes the message.
    pub fn encode_to_vec(&self) -> (r: Vec<u8>)
        ensures
            r@ == request_attachment_metadata_resp_encoding(self@),
    {
        let ghost segs = request_attachment_metadata_resp_segs(self@);
        let mut buf: Vec<u8> = Vec::new();
        proof { lemma_flatten_take(segs, 0); }
        { let encs = crate::protobuf::request_attachment_metadata_resp::attachment_metadata_encode_all_exec(&self.attachments); put_rep_bytes_seg(&mut buf, 1, &encs); }
        proof { lemma_flatten_take(segs, 0); }
        assert(buf@ =~= fields_bytes(flatten(segs.take(1))));
        buf
    }

    /// Decodes a message.
    pub fn decode(buf: &[u8]) -> (r: Result<RequestAttachmentMetadataResp, DecodeError>)
        ensures
            match request_attachment_metadata_resp_decoding(buf@) {
                Some(v) => r matches Ok(m) && m@ == v,
                None => r is Err,
            },
    {
        let fs = match decode_fields(buf) {
            Some(fs) => fs,
            None => { return Err(DecodeError); },
        };
        let attachments = crate::protobuf::request_attachment_metadata_resp::attachment_metadata_decode_all_exec(&get_rep_bytes(&fs, 1)?)?;
        Ok(RequestAttachmentMetadataResp { attachments })
    }
}

/// Announcement of attachment metadata to peers.
#[derive(Clone, Debug, PartialEq, Eq)]
pub struct AnnounceAttachmentMetadata {
    /// The metadata.
    pub attachments: Vec<crate::protobuf::announce_attachment_metadata::AttachmentMetadata>,
}

/// The mathematical form of a [`AnnounceAttachmentMetadata`].
pub struct AnnounceAttachmentMetadataView {
    pub attachments: Seq<crate::protobuf::announce_attachment_metadata::AttachmentMetadataView>,
}

impl View for AnnounceAttachmentMetadata {
    type V = AnnounceAttachmentMetadataView;

    open spec fn view(&self) -> AnnounceAttachmentMetadataView {
        AnnounceAttachmentMetadataView {
            attachments: Seq::new(self.attachments@.len(), |j: int| self.attachments@[j]@),
        }
    }
}

/// The fields that a [`AnnounceAttachmentMetadata`] is sent as, by field.
pub open spec fn announce_attachment_metadata_segs(m: AnnounceAttachmentMetadataView) -> Seq<Seq<SpecField>> {
    seq![
        seg_rep_bytes(1, crate::protobuf::announce_attachment_metadata::attachment_metadata_encodings(m.attachments)),
    ]
}

/// The field numbers of the parts of a [`AnnounceAttachmentMetadata`].
pub open spec fn announce_attachment_metadata_ranges() -> Seq<(u32, u32)> {
    simple_ranges(1)
}

/// The encoding of a [`AnnounceAttachmentMetadata`].
pub open spec fn announce_attachment_metadata_encoding(m: AnnounceAttachmentMetadataView) -> Seq<u8> {
    fields_bytes(flatten(announce_attachment_metadata_segs(m)))
}

/// The [`AnnounceAttachmentMetadata`] that a list of fields describes, if any.
pub open spec fn announce_attachment_metadata_from_fields(fs: Seq<SpecField>) -> Option<AnnounceAttachmentMetadataView> {
    match match get_rep_bytes_spec(fs, 1) { Some(bs) => crate::protobuf::announce_attachment_metadata::attachment_metadata_decode_all(bs), None => None } {
        Some(x) => { let v0 = x; Some(AnnounceAttachmentMetadataView { attachments: v0 }) },
        None => None,
    }
}

/// The [`AnnounceAttachmentMetadata`] that bytes encode, if any.
pub open spec fn announce_attachment_metadata_decoding(b: Seq<u8>) -> Option<AnnounceAttachmentMetadataView> {
    match parse_fields(b) {
        Some(fs) => announce_attachment_metadata_from_fields(fs),
        None => None,
    }
}

/// Decoding an encoded [`AnnounceAttachmentMetadata`] gives it back.
pub proof fn lemma_announce_attachment_metadata_round_trip(m: AnnounceAttachmentMetadataView)
    requires
        announce_attachment_metadata_encoding(m).len() <= u64::MAX,
    ensures
        announce_attachment_metadata_decoding(announce_attachment_metadata_encoding(m)) == Some(m),
{
    broadcast use lemma_all_in_segs;
    let segs = announce_attachment_metadata_segs(m);
    let ranges = announce_attachment_metadata_ranges();
    assert forall|k: int| 0 <= k < segs.len() implies all_in(#[trigger] segs[k], ranges[k].0, ranges[k].1) by {
        if k == 0 { }
    }
    assert(segs_ok(segs, ranges));
    lemma_flatten_tags_ok(segs, ranges);
    lemma_parse_fields(flatten(segs));

    lemma_flatten_tag(segs, ranges, 0, 1);
    lemma_get_seg_rep_bytes(1, crate::protobuf::announce_attachment_metadata::attachment_metadata_encodings(m.attachments));
    assert forall|j: int| 0 <= j < m.attachments.len() implies #[trigger] crate::protobuf::announce_attachment_metadata::attachment_metadata_encoding(m.attachments[j]).len() <= u64::MAX by {
        lemma_flatten_len(segs, 0);
        lemma_seg_rep_bytes_len(1, crate::protobuf::announce_attachment_metadata::attachment_metadata_encodings(m.attachments), j);
    }
    crate::protobuf::announce_attachment_metadata::lemma_attachment_metadata_decode_all(m.attachments);
}

impl AnnounceAttachmentMetadata {
    /// Encodes the message.
    pub fn encode_to_vec(&self) -> (r: Vec<u8>)
        ensures
            r@ == announce_attachment_metadata_encoding(self@),
    {
        let ghost segs = announce_attachment_metadata_segs(self@);
        let mut buf: Vec<u8> = Vec::new();
        proof { lemma_flatten_take(segs, 0); }
        { let encs = crate::protobuf::announce_attachment_metadata::attachment_metadata_encode_all_exec(&self.attachments); put_rep_bytes_seg(&mut buf, 1, &encs); }
        proof { lemma_flatten_take(segs, 0); }
        assert(buf@ =~= fields_bytes(flatten(segs.take(1))));
        buf
    }

    /// Decodes a message.
    pub fn decode(buf: &[u8]) -> (r: Result<AnnounceAttachmentMetadata, DecodeError>)
        ensures
            match announce_attachment_metadata_decoding(buf@) {
                Some(v) => r matches Ok(m) && m@ == v,
                None => r is Err,
            },
    {
        let fs = match decode_fields(buf) {
            Some(fs) => fs,
            None => { return Err(DecodeError); },
        };
        let attachments = crate::protobuf::announce_attachment_metadata::attachment_metadata_decode_all_exec(&get_rep_bytes(&fs, 1)?)?;
        Ok(AnnounceAttachmentMetadata { attachments })
    }
}

/// Onboarding token for linking a device.
#[derive(Clone, Debug, PartialEq, Eq)]
pub struct OnboardingToken {
    /// Account public key.
    pub account_pubkey: Vec<u8>,
    /// Expiry time of the token.
    pub expires_at: i64,
    /// Random nonce, for uniqueness.
    pub nonce: Vec<u8>,
    /// Signature by the account key.
    pub signature: Vec<u8>,
}

/// The mathematical form of a [`OnboardingToken`].
pub struct OnboardingTokenView {
    pub account_pubkey: Seq<u8>,
    pub expires_at: i64,
    pub nonce: Seq<u8>,
    pub signature: Seq<u8>,
}

impl View for OnboardingToken {
    type V = OnboardingTokenView;

    open spec fn view(&self) -> OnboardingTokenView {
        OnboardingTokenView {
            account_pubkey: self.account_pubkey@,
            expires_at: self.expires_at,
            nonce: self.nonce@,
            signature: self.signature@,
        }
    }
}

/// The fields that a [`OnboardingToken`] is sent as, by field.
pub open spec fn onboarding_token_segs(m: OnboardingTokenView) -> Seq<Seq<SpecField>> {
    seq![
        seg_bytes(1, m.account_pubkey),
        seg_varint(2, m.expires_at as u64),
        seg_bytes(3, m.nonce),
        seg_bytes(4, m.signature),
    ]
}

/// The field numbers of the parts of a [`OnboardingToken`].
pub open spec fn onboarding_token_ranges() -> Seq<(u32, u32)> {
    simple_ranges(4)
}

/// The encoding of a [`OnboardingToken`].
pub open spec fn onboarding_token_encoding(m: OnboardingTokenView) -> Seq<u8> {
    fields_bytes(flatten(onboarding_token_segs(m)))
}

/// The [`OnboardingToken`] that a list of fields describes, if any.
pub open spec fn onboarding_token_from_fields(fs: Seq<SpecField>) -> Option<OnboardingTokenView> {
    match get_bytes_spec(fs, 1) {
        Some(x) => { let v0 = x; match get_varint_spec(fs, 2) {
        Some(x) => { let v1 = x as i64; match get_bytes_spec(fs, 3) {
        Some(x) => { let v2 = x; match get_bytes_spec(fs, 4) {
        Some(x) => { let v3 = x; Some(OnboardingTokenView { account_pubkey: v0, expires_at: v1, nonce: v2, signature: v3 }) },
        None => None,
    } },
        None => None,
    } },
        None => None,
    } },
        None => None,
    }
}

/// The [`OnboardingToken`] that bytes encode, if any.
pub open spec fn onboarding_token_decoding(b: Seq<u8>) -> Option<OnboardingTokenView> {
    match parse_fields(b) {
        Some(fs) => onboarding_token_from_fields(fs),
        None => None,
    }
}

/// Decoding an encoded [`OnboardingToken`] gives it back.
pub proof fn lemma_onboarding_token_round_trip(m: OnboardingTokenView)
    requires
        onboarding_token_encoding(m).len() <= u64::MAX,
    ensures
        onboarding_token_decoding(onboarding_token_encoding(m)) == Some(m),
{
    broadcast use lemma_all_in_segs;
    let segs = onboarding_token_segs(m);
    let ranges = onboarding_token_ranges();
    assert forall|k: int| 0 <= k < segs.len() implies all_in(#[trigger] segs[k], ranges[k].0, ranges[k].1) by {
        if k == 0 { } else if k == 1 { } else if k == 2 { } else if k == 3 { }
    }
    assert(segs_ok(segs, ranges));
    lemma_flatten_tags_ok(segs, ranges);
    lemma_parse_fields(flatten(segs));

    lemma_flatten_tag(segs, ranges, 0, 1); lemma_get_seg_bytes(1, m.account_pubkey);
    lemma_flatten_tag(segs, ranges, 1, 2); lemma_get_seg_varint(2, m.expires_at as u64); lemma_i64_cast(m.expires_at);
    lemma_flatten_tag(segs, ranges, 2, 3); lemma_get_seg_bytes(3, m.nonce);
    lemma_flatten_tag(segs, ranges, 3, 4); lemma_get_seg_bytes(4, m.signature);
}

impl OnboardingToken {
    /// Encodes the message.
    pub fn encode_to_vec(&self) -> (r: Vec<u8>)
        ensures
            r@ == onboarding_token_encoding(self@),
    {
        let ghost segs = onboarding_token_segs(self@);
        let mut buf: Vec<u8> = Vec::new();
        proof { lemma_flatten_take(segs, 0); }
        put_bytes_seg(&mut buf, 1, self.account_pubkey.as_slice());
        proof { lemma_flatten_take(segs, 0); }
        assert(buf@ =~= fields_bytes(flatten(segs.take(1))));
        put_varint_seg(&mut buf, 2, self.expires_at as u64);
        proof { lemma_flatten_take(segs, 1); }
        assert(buf@ =~= fields_bytes(flatten(segs.take(2))));
        put_bytes_seg(&mut buf, 3, self.nonce.as_slice());
        proof { lemma_flatten_take(segs, 2); }
        assert(buf@ =~= fields_bytes(flatten(segs.take(3))));
        put_bytes_seg(&mut buf, 4, self.signature.as_slice());
        proof { lemma_flatten_take(segs, 3); }
        assert(buf@ =~= fields_bytes(flatten(segs.take(4))));
        buf
    }

    /// Decodes a message.
    pub fn decode(buf: &[u8]) -> (r: Result<OnboardingToken, DecodeError>)
        ensures
            match onboarding_token_decoding(buf@) {
                Some(v) => r matches Ok(m) && m@ == v,
                None => r is Err,
            },
    {
        let fs = match decode_fields(buf) {
            Some(fs) => fs,
            None => { return Err(DecodeError); },
        };
        let account_pubkey = get_bytes(&fs, 1)?;
        let expires_at = get_varint(&fs, 2)? as i64;
        let nonce = get_bytes(&fs, 3)?;
        let signature = get_bytes(&fs, 4)?;
        Ok(OnboardingToken { account_pubkey, expires_at, nonce, signature })
    }
}

/// Announcement of heads, for CRDT synchronisation.
#[derive(Clone, Debug, PartialEq, Eq)]
pub struct SavedAnnounceHeads {
    /// Hashes of the head operations.
    pub heads: Vec<Vec<u8>>,
    /// Peer id of the sender.
    pub peer_id: String,
    /// Time of the announcement.
    pub timestamp: i64,
}

/// The mathematical form of a [`SavedAnnounceHeads`].
pub struct SavedAnnounceHeadsView {
    pub heads: Seq<Seq<u8>>,
    pub peer_id: Seq<char>,
    pub timestamp: i64,
}

impl View for SavedAnnounceHeads {
    type V = SavedAnnounceHeadsView;

    open spec fn view(&self) -> SavedAnnounceHeadsView {
        SavedAnnounceHeadsView {
            heads: bytes_list_view(self.heads@),
            peer_id: self.peer_id@,
            timestamp: self.timestamp,
        }
    }
}

/// The fields that a [`SavedAnnounceHeads`] is sent as, by field.
pub open spec fn saved_announce_heads_segs(m: SavedAnnounceHeadsView) -> Seq<Seq<SpecField>> {
    seq![
        seg_rep_bytes(1, m.heads),
        seg_bytes(2, encode_utf8(m.peer_id)),
        seg_varint(3, m.timestamp as u64),
    ]
}

/// The field numbers of the parts of a [`SavedAnnounceHeads`].
pub open spec fn saved_announce_heads_ranges() -> Seq<(u32, u32)> {
    simple_ranges(3)
}

/// The encoding of a [`SavedAnnounceHeads`].
pub open spec fn saved_announce_heads_encoding(m: SavedAnnounceHeadsView) -> Seq<u8> {
    fields_bytes(flatten(saved_announce_heads_segs(m)))
}

/// The [`SavedAnnounceHeads`] that a list of fields describes, if any.
pub open spec fn saved_announce_heads_from_fields(fs: Seq<SpecField>) -> Option<SavedAnnounceHeadsView> {
    match get_rep_bytes_spec(fs, 1) {
        Some(x) => { let v0 = x; match get_string_spec(fs, 2) {
        Some(x) => { let v1 = x; match get_varint_spec(fs, 3) {
        Some(x) => { let v2 = x as i64; Some(SavedAnnounceHeadsView { heads: v0, peer_id: v1, timestamp: v2 }) },
        None => None,
    } },
        None => None,
    } },
        None => None,
    }
}

/// The [`SavedAnnounceHeads`] that bytes encode, if any.
pub open spec fn saved_announce_heads_decoding(b: Seq<u8>) -> Option<SavedAnnounceHeadsView> {
    match parse_fields(b) {
        Some(fs) => saved_announce_heads_from_fields(fs),
        None => None,
    }
}

/// Decoding an encoded [`SavedAnnounceHeads`] gives it back.
pub proof fn lemma_saved_announce_heads_round_trip(m: SavedAnnounceHeadsView)
    requires
        saved_announce_heads_encoding(m).len() <= u64::MAX,
    ensures
        saved_announce_heads_decoding(saved_announce_heads_encoding(m)) == Some(m),
{
    broadcast use lemma_all_in_segs;
    let segs = saved_announce_heads_segs(m);
    let ranges = saved_announce_heads_ranges();
    assert forall|k: int| 0 <= k < segs.len() implies all_in(#[trigger] segs[k], ranges[k].0, ranges[k].1) by {
        if k == 0 { } else if k == 1 { } else if k == 2 { }
    }
    assert(segs_ok(segs, ranges));
    lemma_flatten_tags_ok(segs, ranges);
    lemma_parse_fields(flatten(segs));

    lemma_flatten_tag(segs, ranges, 0, 1); lemma_get_seg_rep_bytes(1, m.heads);
    lemma_flatten_tag(segs, ranges, 1, 2); lemma_get_seg_string(2, m.peer_id);
    lemma_flatten_tag(segs, ranges, 2, 3); lemma_get_seg_varint(3, m.timestamp as u64); lemma_i64_cast(m.timestamp);
}

impl SavedAnnounceHeads {
    /// Encodes the message.
    pub fn encode_to_vec(&self) -> (r: Vec<u8>)
        ensures
            r@ == saved_announce_heads_encoding(self@),
    {
        let ghost segs = saved_announce_heads_segs(self@);
        let mut buf: Vec<u8> = Vec::new();
        proof { lemma_flatten_take(segs, 0); }
        put_rep_bytes_seg(&mut buf, 1, &self.heads);
        proof { lemma_flatten_take(segs, 0); }
        assert(buf@ =~= fields_bytes(flatten(segs.take(1))));
        put_string_seg(&mut buf, 2, &self.peer_id);
        proof { lemma_flatten_take(segs, 1); }
        assert(buf@ =~= fields_bytes(flatten(segs.take(2))));
        put_varint_seg(&mut buf, 3, self.timestamp as u64);
        proof { lemma_flatten_take(segs, 2); }
        assert(buf@ =~= fields_bytes(flatten(segs.take(3))));
        buf
    }

    /// Decodes a message.
    pub fn decode(buf: &[u8]) -> (r: Result<SavedAnnounceHeads, DecodeError>)
        ensures
            match saved_announce_heads_decoding(buf@) {
                Some(v) => r matches Ok(m) && m@ == v,
                None => r is Err,
            },
    {
        let fs = match decode_fields(buf) {
            Some(fs) => fs,
            None => { return Err(DecodeError); },
        };
        let heads = get_rep_bytes(&fs, 1)?;
        let peer_id = get_string(&fs, 2)?;
        let timestamp = get_varint(&fs, 3)? as i64;
        Ok(SavedAnnounceHeads { heads, peer_id, timestamp })
    }
}

/// Request for operations.
#[derive(Clone, Debug, PartialEq, Eq)]
pub struct SavedFetchOpsReq {
    /// Hashes of the operations to fetch.
    pub ops: Vec<Vec<u8>>,
    /// Maximum number of operations to return.
    pub max_ops: u32,
}

/// The mathematical form of a [`SavedFetchOpsReq`].
pub struct SavedFetchOpsReqView {
    pub ops: Seq<Seq<u8>>,
    pub max_ops: u32,
}

impl View for SavedFetchOpsReq {
    type V = SavedFetchOpsReqView;

    open spec fn view(&self) -> SavedFetchOpsReqView {
        SavedFetchOpsReqView {
            ops: bytes_list_view(self.ops@),
            max_ops: self.max_ops,
        }
    }
}

/// The fields that a [`SavedFetchOpsReq`] is sent as, by field.
pub open spec fn saved_fetch_ops_req_segs(m: SavedFetchOpsReqView) -> Seq<Seq<SpecField>> {
    seq![
        seg_rep_bytes(1, m.ops),
        seg_varint(2, m.max_ops as u64),
    ]
}

/// The field numbers of the parts of a [`SavedFetchOpsReq`].
pub open spec fn saved_fetch_ops_req_ranges() -> Seq<(u32, u32)> {
    simple_ranges(2)
}

/// The encoding of a [`SavedFetchOpsReq`].
pub open spec fn saved_fetch_ops_req_encoding(m: SavedFetchOpsReqView) -> Seq<u8> {
    fields_bytes(flatten(saved_fetch_ops_req_segs(m)))
}

/// The [`SavedFetchOpsReq`] that a list of fields describes, if any.
pub open spec fn saved_fetch_ops_req_from_fields(fs: Seq<SpecField>) -> Option<SavedFetchOpsReqView> {
    match get_rep_bytes_spec(fs, 1) {
        Some(x) => { let v0 = x; match get_varint_spec(fs, 2) {
        Some(x) => { let v1 = x as u32; Some(SavedFetchOpsReqView { ops: v0, max_ops: v1 }) },
        None => None,
    } },
        None => None,
    }
}

/// The [`SavedFetchOpsReq`] that bytes encode, if any.
pub open spec fn saved_fetch_ops_req_decoding(b: Seq<u8>) -> Option<SavedFetchOpsReqView> {
    match parse_fields(b) {
        Some(fs) => saved_fetch_ops_req_from_fields(fs),
        None => None,
    }
}

/// Decoding an encoded [`SavedFetchOpsReq`] gives it back.
pub proof fn lemma_saved_fetch_ops_req_round_trip(m: SavedFetchOpsReqView)
    requires
        saved_fetch_ops_req_encoding(m).len() <= u64::MAX,
    ensures
        saved_fetch_ops_req_decoding(saved_fetch_ops_req_encoding(m)) == Some(m),
{
    broadcast use lemma_all_in_segs;
    let segs = saved_fetch_ops_req_segs(m);
    let ranges = saved_fetch_ops_req_ranges();
    assert forall|k: int| 0 <= k < segs.len() implies all_in(#[trigger] segs[k], ranges[k].0, ranges[k].1) by {
        if k == 0 { } else if k == 1 { }
    }
    assert(segs_ok(segs, ranges));
    lemma_flatten_tags_ok(segs, ranges);
    lemma_parse_fields(flatten(segs));

    lemma_flatten_tag(segs, ranges, 0, 1); lemma_get_seg_rep_bytes(1, m.ops);
    lemma_flatten_tag(segs, ranges, 1, 2); lemma_get_seg_varint(2, m.max_ops as u64); lemma_u32_cast(m.max_ops);
}

impl SavedFetchOpsReq {
    /// Encodes the message.
    pub fn encode_to_vec(&self) -> (r: Vec<u8>)
        ensures
            r@ == saved_fetch_ops_req_encoding(self@),
    {
        let ghost segs = saved_fetch_ops_req_segs(self@);
        let mut buf: Vec<u8> = Vec::new();
        proof { lemma_flatten_take(segs, 0); }
        put_rep_bytes_seg(&mut buf, 1, &self.ops);
        proof { lemma_flatten_take(segs, 0); }
        assert(buf@ =~= fields_bytes(flatten(segs.take(1))));
        put_varint_seg(&mut buf, 2, self.max_ops as u64);
        proof { lemma_flatten_take(segs, 1); }
        assert(buf@ =~= fields_bytes(flatten(segs.take(2))));
        buf
    }

    /// Decodes a message.
    pub fn decode(buf: &[u8]) -> (r: Result<SavedFetchOpsReq, DecodeError>)
        ensures
            match saved_fetch_ops_req_decoding(buf@) {
                Some(v) => r matches Ok(m) && m@ == v,
                None => r is Err,
            },
    {
        let fs = match decode_fields(buf) {
            Some(fs) => fs,
            None => { return Err(DecodeError); },
        };
        let ops = get_rep_bytes(&fs, 1)?;
        let max_ops = get_varint(&fs, 2)? as u32;
        Ok(SavedFetchOpsReq { ops, max_ops })
    }
}

/// Response with operations.
#[derive(Clone, Debug, PartialEq, Eq)]
pub struct SavedFetchOpsResp {
    /// The requested operations.
    pub ops: Vec<crate::protobuf::OpHeader>,
}

/// The mathematical form of a [`SavedFetchOpsResp`].
pub struct SavedFetchOpsRespView {
    pub ops: Seq<crate::protobuf::OpHeaderView>,
}

impl View for SavedFetchOpsResp {
    type V = SavedFetchOpsRespView;

    open spec fn view(&self) -> SavedFetchOpsRespView {
        SavedFetchOpsRespView {
            ops: Seq::new(self.ops@.len(), |j: int| self.ops@[j]@),
        }
    }
}

/// The fields that a [`SavedFetchOpsResp`] is sent as, by field.
pub open spec fn saved_fetch_ops_resp_segs(m: SavedFetchOpsRespView) -> Seq<Seq<SpecField>> {
    seq![
        seg_rep_bytes(1, crate::protobuf::op_header_encodings(m.ops)),
    ]
}

/// The field numbers of the parts of a [`SavedFetchOpsResp`].
pub open spec fn saved_fetch_ops_resp_ranges() -> Seq<(u32, u32)> {
    simple_ranges(1)
}

/// The encoding of a [`SavedFetchOpsResp`].
pub open spec fn saved_fetch_ops_resp_encoding(m: SavedFetchOpsRespView) -> Seq<u8> {
    fields_bytes(flatten(saved_fetch_ops_resp_segs(m)))
}

/// The [`SavedFetchOpsResp`] that a list of fields describes, if any.
pub open spec fn saved_fetch_ops_resp_from_fields(fs: Seq<SpecField>) -> Option<SavedFetchOpsRespView> {
    match match get_rep_bytes_spec(fs, 1) { Some(bs) => crate::protobuf::op_header_decode_all(bs), None => None } {
        Some(x) => { let v0 = x; Some(SavedFetchOpsRespView { ops: v0 }) },
        None => None,
    }
}

/// The [`SavedFetchOpsResp`] that bytes encode, if any.
pub open spec fn saved_fetch_ops_resp_decoding(b: Seq<u8>) -> Option<SavedFetchOpsRespView> {
    match parse_fields(b) {
        Some(fs) => saved_fetch_ops_resp_from_fields(fs),
        None => None,
    }
}

/// Decoding an encoded [`SavedFetchOpsResp`] gives it back.
pub proof fn lemma_saved_fetch_ops_resp_round_trip(m: SavedFetchOpsRespView)
    requires
        saved_fetch_ops_resp_encoding(m).len() <= u64::MAX,
    ensures
        saved_fetch_ops_resp_decoding(saved_fetch_ops_resp_encoding(m)) == Some(m),
{
    broadcast use lemma_all_in_segs;
    let segs = saved_fetch_ops_resp_segs(m);
    let ranges = saved_fetch_ops_resp_ranges();
    assert forall|k: int| 0 <= k < segs.len() implies all_in(#[trigger] segs[k], ranges[k].0, ranges[k].1) by {
        if k == 0 { }
    }
    assert(segs_ok(segs, ranges));
    lemma_flatten_tags_ok(segs, ranges);
    lemma_parse_fields(flatten(segs));

    lemma_flatten_tag(segs, ranges, 0, 1);
    lemma_get_seg_rep_bytes(1, crate::protobuf::op_header_encodings(m.ops));
    assert forall|j: int| 0 <= j < m.ops.len() implies #[trigger] crate::protobuf::op_header_encoding(m.ops[j]).len() <= u64::MAX by {
        lemma_flatten_len(segs, 0);
        lemma_seg_rep_bytes_len(1, crate::protobuf::op_header_encodings(m.ops), j);
    }
    crate::protobuf::lemma_op_header_decode_all(m.ops);
}

impl SavedFetchOpsResp {
    /// Encodes the message.
    pub fn encode_to_vec(&self) -> (r: Vec<u8>)
        ensures
            r@ == saved_fetch_ops_resp_encoding(self@),
    {
        let ghost segs = saved_fetch_ops_resp_segs(self@);
        let mut buf: Vec<u8> = Vec::new();
        proof { lemma_flatten_take(segs, 0); }
        { let encs = crate::protobuf::op_header_encode_all_exec(&self.ops); put_rep_bytes_seg(&mut buf, 1, &encs); }
        proof { lemma_flatten_take(segs, 0); }
        assert(buf@ =~= fields_bytes(flatten(segs.take(1))));
        buf
    }

    /// Decodes a message.
    pub fn decode(buf: &[u8]) -> (r: Result<SavedFetchOpsResp, DecodeError>)
        ensures
            match saved_fetch_ops_resp_decoding(buf@) {
                Some(v) => r matches Ok(m) && m@ == v,
                None => r is Err,
            },
    {
        let fs = match decode_fields(buf) {
            Some(fs) => fs,
            None => { return Err(DecodeError); },
        };
        let ops = crate::protobuf::op_header_decode_all_exec(&get_rep_bytes(&fs, 1)?)?;
        Ok(SavedFetchOpsResp { ops })
    }
}

/// Request to learn which chunks a peer has.
#[derive(Clone, Debug, PartialEq, Eq)]
pub struct SavedHaveChunksReq {
    /// Content ids of the chunks.
    pub chunks: Vec<Vec<u8>>,
}

/// The mathematical form of a [`SavedHaveChunksReq`].
pub struct SavedHaveChunksReqView {
    pub chunks: Seq<Seq<u8>>,
}

impl View for SavedHaveChunksReq {
    type V = SavedHaveChunksReqView;

    open spec fn view(&self) -> SavedHaveChunksReqView {
        SavedHaveChunksReqView {
            chunks: bytes_list_view(self.chunks@),
        }
    }
}

/// The fields that a [`SavedHaveChunksReq`] is sent as, by field.
pub open spec fn saved_have_chunks_req_segs(m: SavedHaveChunksReqView) -> Seq<Seq<SpecField>> {
    seq![
        seg_rep_bytes(1, m.chunks),
    ]
}

/// The field numbers of the parts of a [`SavedHaveChunksReq`].
pub open spec fn saved_have_chunks_req_ranges() -> Seq<(u32, u32)> {
    simple_ranges(1)
}

/// The encoding of a [`SavedHaveChunksReq`].
pub open spec fn saved_have_chunks_req_encoding(m: SavedHaveChunksReqView) -> Seq<u8> {
    fields_bytes(flatten(saved_have_chunks_req_segs(m)))
}

/// The [`SavedHaveChunksReq`] that a list of fields describes, if any.
pub open spec fn saved_have_chunks_req_from_fields(fs: Seq<SpecField>) -> Option<SavedHaveChunksReqView> {
    match get_rep_bytes_spec(fs, 1) {
        Some(x) => { let v0 = x; Some(SavedHaveChunksReqView { chunks: v0 }) },
        None => None,
    }
}

/// The [`SavedHaveChunksReq`] that bytes encode, if any.
pub open spec fn saved_have_chunks_req_decoding(b: Seq<u8>) -> Option<SavedHaveChunksReqView> {
    match parse_fields(b) {
        Some(fs) => saved_have_chunks_req_from_fields(fs),
        None => None,
    }
}

/// Decoding an encoded [`SavedHaveChunksReq`] gives it back.
pub proof fn lemma_saved_have_chunks_req_round_trip(m: SavedHaveChunksReqView)
    requires
        saved_have_chunks_req_encoding(m).len() <= u64::MAX,
    ensures
        saved_have_chunks_req_decoding(saved_have_chunks_req_encoding(m)) == Some(m),
{
    broadcast use lemma_all_in_segs;
    let segs = saved_have_chunks_req_segs(m);
    let ranges = saved_have_chunks_req_ranges();
    assert forall|k: int| 0 <= k < segs.len() implies all_in(#[trigger] segs[k], ranges[k].0, ranges[k].1) by {
        if k == 0 { }
    }
    assert(segs_ok(segs, ranges));
    lemma_flatten_tags_ok(segs, ranges);
    lemma_parse_fields(flatten(segs));

    lemma_flatten_tag(segs, ranges, 0, 1); lemma_get_seg_rep_bytes(1, m.chunks);
}

impl SavedHaveChunksReq {
    /// Encodes the message.
    pub fn encode_to_vec(&self) -> (r: Vec<u8>)
        ensures
            r@ == saved_have_chunks_req_encoding(self@),
    {
        let ghost segs = saved_have_chunks_req_segs(self@);
        let mut buf: Vec<u8> = Vec::new();
        proof { lemma_flatten_take(segs, 0); }
        put_rep_bytes_seg(&mut buf, 1, &self.chunks);
        proof { lemma_flatten_take(segs, 0); }
        assert(buf@ =~= fields_bytes(flatten(segs.take(1))));
        buf
    }

    /// Decodes a message.
    pub fn decode(buf: &[u8]) -> (r: Result<SavedHaveChunksReq, DecodeError>)
        ensures
            match saved_have_chunks_req_decoding(buf@) {
                Some(v) => r matches Ok(m) && m@ == v,
                None => r is Err,
            },
    {
        let fs = match decode_fields(buf) {
            Some(fs) => fs,
            None => { return Err(DecodeError); },
        };
        let chunks = get_rep_bytes(&fs, 1)?;
        Ok(SavedHaveChunksReq { chunks })
    }
}

/// Which chunks a peer has.
#[derive(Clone, Debug, PartialEq, Eq)]
pub struct SavedHaveChunksResp {
    /// One flag per chunk: true when the peer has it.
    pub available: Vec<bool>,
}

/// The mathematical form of a [`SavedHaveChunksResp`].
pub struct SavedHaveChunksRespView {
    pub available: Seq<bool>,
}

impl View for SavedHaveChunksResp {
    type V = SavedHaveChunksRespView;

    open spec fn view(&self) -> SavedHaveChunksRespView {
        SavedHaveChunksRespView {
            available: self.available@,
        }
    }
}

/// The fields that a [`SavedHaveChunksResp`] is sent as, by field.
pub open spec fn saved_have_chunks_resp_segs(m: SavedHaveChunksRespView) -> Seq<Seq<SpecField>> {
    seq![
        seg_packed(1, bools_bits(m.available)),
    ]
}

/// The field numbers of the parts of a [`SavedHaveChunksResp`].
pub open spec fn saved_have_chunks_resp_ranges() -> Seq<(u32, u32)> {
    simple_ranges(1)
}

/// The encoding of a [`SavedHaveChunksResp`].
pub open spec fn saved_have_chunks_resp_encoding(m: SavedHaveChunksRespView) -> Seq<u8> {
    fields_bytes(flatten(saved_have_chunks_resp_segs(m)))
}

/// The [`SavedHaveChunksResp`] that a list of fields describes, if any.
pub open spec fn saved_have_chunks_resp_from_fields(fs: Seq<SpecField>) -> Option<SavedHaveChunksRespView> {
    match get_packed_spec(fs, 1) {
        Some(x) => { let v0 = Seq::new(x.len(), |j: int| x[j] != 0); Some(SavedHaveChunksRespView { available: v0 }) },
        None => None,
    }
}

/// The [`SavedHaveChunksResp`] that bytes encode, if any.
pub open spec fn saved_have_chunks_resp_decoding(b: Seq<u8>) -> Option<SavedHaveChunksRespView> {
    match parse_fields(b) {
        Some(fs) => saved_have_chunks_resp_from_fields(fs),
        None => None,
    }
}

/// Decoding an encoded [`SavedHaveChunksResp`] gives it back.
pub proof fn lemma_saved_have_chunks_resp_round_trip(m: SavedHaveChunksRespView)
    requires
        saved_have_chunks_resp_encoding(m).len() <= u64::MAX,
    ensures
        saved_have_chunks_resp_decoding(saved_have_chunks_resp_encoding(m)) == Some(m),
{
    broadcast use lemma_all_in_segs;
    let segs = saved_have_chunks_resp_segs(m);
    let ranges = saved_have_chunks_resp_ranges();
    assert forall|k: int| 0 <= k < segs.len() implies all_in(#[trigger] segs[k], ranges[k].0, ranges[k].1) by {
        if k == 0 { }
    }
    assert(segs_ok(segs, ranges));
    lemma_flatten_tags_ok(segs, ranges);
    lemma_parse_fields(flatten(segs));

    lemma_flatten_tag(segs, ranges, 0, 1); lemma_get_seg_packed(1, bools_bits(m.available)); lemma_bools_round_trip(m.available);
}

impl SavedHaveChunksResp {
    /// Encodes the message.
    pub fn encode_to_vec(&self) -> (r: Vec<u8>)
        ensures
            r@ == saved_have_chunks_resp_encoding(self@),
    {
        let ghost segs = saved_have_chunks_resp_segs(self@);
        let mut buf: Vec<u8> = Vec::new();
        proof { lemma_flatten_take(segs, 0); }
        { let bits = bools_to_bits(&self.available); put_packed_seg(&mut buf, 1, &bits); }
        proof { lemma_flatten_take(segs, 0); }
        assert(buf@ =~= fields_bytes(flatten(segs.take(1))));
        buf
    }

    /// Decodes a message.
    pub fn decode(buf: &[u8]) -> (r: Result<SavedHaveChunksResp, DecodeError>)
        ensures
            match saved_have_chunks_resp_decoding(buf@) {
                Some(v) => r matches Ok(m) && m@ == v,
                None => r is Err,
            },
    {
        let fs = match decode_fields(buf) {
            Some(fs) => fs,
            None => { return Err(DecodeError); },
        };
        let available = bits_to_bools(&get_packed(&fs, 1)?);
        Ok(SavedHaveChunksResp { available })
    }
}

/// Request for chunks.
#[derive(Clone, Debug, PartialEq, Eq)]
pub struct SavedFetchChunksReq {
    /// Content ids of the chunks.
    pub chunks: Vec<Vec<u8>>,
}

/// The mathematical form of a [`SavedFetchChunksReq`].
pub struct SavedFetchChunksReqView {
    pub chunks: Seq<Seq<u8>>,
}

impl View for SavedFetchChunksReq {
    type V = SavedFetchChunksReqView;

    open spec fn view(&self) -> SavedFetchChunksReqView {
        SavedFetchChunksReqView {
            chunks: bytes_list_view(self.chunks@),
        }
    }
}

/// The fields that a [`SavedFetchChunksReq`] is sent as, by field.
pub open spec fn saved_fetch_chunks_req_segs(m: SavedFetchChunksReqView) -> Seq<Seq<SpecField>> {
    seq![
        seg_rep_bytes(1, m.chunks),
    ]
}

/// The field numbers of the parts of a [`SavedFetchChunksReq`].
pub open spec fn saved_fetch_chunks_req_ranges() -> Seq<(u32, u32)> {
    simple_ranges(1)
}

/// The encoding of a [`SavedFetchChunksReq`].
pub open spec fn saved_fetch_chunks_req_encoding(m: SavedFetchChunksReqView) -> Seq<u8> {
    fields_bytes(flatten(saved_fetch_chunks_req_segs(m)))
}

/// The [`SavedFetchChunksReq`] that a list of fields describes, if any.
pub open spec fn saved_fetch_chunks_req_from_fields(fs: Seq<SpecField>) -> Option<SavedFetchChunksReqView> {
    match get_rep_bytes_spec(fs, 1) {
        Some(x) => { let v0 = x; Some(SavedFetchChunksReqView { chunks: v0 }) },
        None => None,
    }
}

/// The [`SavedFetchChunksReq`] that bytes encode, if any.
pub open spec fn saved_fetch_chunks_req_decoding(b: Seq<u8>) -> Option<SavedFetchChunksReqView> {
    match parse_fields(b) {
        Some(fs) => saved_fetch_chunks_req_from_fields(fs),
        None => None,
    }
}

/// Decoding an encoded [`SavedFetchChunksReq`] gives it back.
pub proof fn lemma_saved_fetch_chunks_req_round_trip(m: SavedFetchChunksReqView)
    requires
        saved_fetch_chunks_req_encoding(m).len() <= u64::MAX,
    ensures
        saved_fetch_chunks_req_decoding(saved_fetch_chunks_req_encoding(m)) == Some(m),
{
    broadcast use lemma_all_in_segs;
    let segs = saved_fetch_chunks_req_segs(m);
    let ranges = saved_fetch_chunks_req_ranges();
    assert forall|k: int| 0 <= k < segs.len() implies all_in(#[trigger] segs[k], ranges[k].0, ranges[k].1) by {
        if k == 0 { }
    }
    assert(segs_ok(segs, ranges));
    lemma_flatten_tags_ok(segs, ranges);
    lemma_parse_fields(flatten(segs));

    lemma_flatten_tag(segs, ranges, 0, 1); lemma_get_seg_rep_bytes(1, m.chunks);
}

impl SavedFetchChunksReq {
    /// Encodes the message.
    pub fn encode_to_vec(&self) -> (r: Vec<u8>)
        ensures
            r@ == saved_fetch_chunks_req_encoding(self@),
    {
        let ghost segs = saved_fetch_chunks_req_segs(self@);
        let mut buf: Vec<u8> = Vec::new();
        proof { lemma_flatten_take(segs, 0); }
        put_rep_bytes_seg(&mut buf, 1, &self.chunks);
        proof { lemma_flatten_take(segs, 0); }
        assert(buf@ =~= fields_bytes(flatten(segs.take(1))));
        buf
    }

    /// Decodes a message.
    pub fn decode(buf: &[u8]) -> (r: Result<SavedFetchChunksReq, DecodeError>)
        ensures
            match saved_fetch_chunks_req_decoding(buf@) {
                Some(v) => r matches Ok(m) && m@ == v,
                None => r is Err,
            },
    {
        let fs = match decode_fields(buf) {
            Some(fs) => fs,
            None => { return Err(DecodeError); },
        };
        let chunks = get_rep_bytes(&fs, 1)?;
        Ok(SavedFetchChunksReq { chunks })
    }
}

/// Response with chunks.
#[derive(Clone, Debug, PartialEq, Eq)]
pub struct SavedFetchChunksResp {
    /// Encrypted chunk data.
    pub chunks: Vec<Vec<u8>>,
}

/// The mathematical form of a [`SavedFetchChunksResp`].
pub struct SavedFetchChunksRespView {
    pub chunks: Seq<Seq<u8>>,
}

impl View for SavedFetchChunksResp {
    type V = SavedFetchChunksRespView;

    open spec fn view(&self) -> SavedFetchChunksRespView {
        SavedFetchChunksRespView {
            chunks: bytes_list_view(self.chunks@),
        }
    }
}

/// The fields that a [`SavedFetchChunksResp`] is sent as, by field.
pub open spec fn saved_fetch_chunks_resp_segs(m: SavedFetchChunksRespView) -> Seq<Seq<SpecField>> {
    seq![
        seg_rep_bytes(1, m.chunks),
    ]
}

/// The field numbers of the parts of a [`SavedFetchChunksResp`].
pub open spec fn saved_fetch_chunks_resp_ranges() -> Seq<(u32, u32)> {
    simple_ranges(1)
}

/// The encoding of a [`SavedFetchChunksResp`].
pub open spec fn saved_fetch_chunks_resp_encoding(m: SavedFetchChunksRespView) -> Seq<u8> {
    fields_bytes(flatten(saved_fetch_chunks_resp_segs(m)))
}

/// The [`SavedFetchChunksResp`] that a list of fields describes, if any.
pub open spec fn saved_fetch_chunks_resp_from_fields(fs: Seq<SpecField>) -> Option<SavedFetchChunksRespView> {
    match get_rep_bytes_spec(fs, 1) {
        Some(x) => { let v0 = x; Some(SavedFetchChunksRespView { chunks: v0 }) },
        None => None,
    }
}

/// The [`SavedFetchChunksResp`] that bytes encode, if any.
pub open spec fn saved_fetch_chunks_resp_decoding(b: Seq<u8>) -> Option<SavedFetchChunksRespView> {
    match parse_fields(b) {
        Some(fs) => saved_fetch_chunks_resp_from_fields(fs),
        None => None,
    }
}

/// Decoding an encoded [`SavedFetchChunksResp`] gives it back.
pub proof fn lemma_saved_fetch_chunks_resp_round_trip(m: SavedFetchChunksRespView)
    requires
        saved_fetch_chunks_resp_encoding(m).len() <= u64::MAX,
    ensures
        saved_fetch_chunks_resp_decoding(saved_fetch_chunks_resp_encoding(m)) == Some(m),
{
    broadcast use lemma_all_in_segs;
    let segs = saved_fetch_chunks_resp_segs(m);
    let ranges = saved_fetch_chunks_resp_ranges();
    assert forall|k: int| 0 <= k < segs.len() implies all_in(#[trigger] segs[k], ranges[k].0, ranges[k].1) by {
        if k == 0 { }
    }
    assert(segs_ok(segs, ranges));
    lemma_flatten_tags_ok(segs, ranges);
    lemma_parse_fields(flatten(segs));

    lemma_flatten_tag(segs, ranges, 0, 1); lemma_get_seg_rep_bytes(1, m.chunks);
}

impl SavedFetchChunksResp {
    /// Encodes the message.
    pub fn encode_to_vec(&self) -> (r: Vec<u8>)
        ensures
            r@ == saved_fetch_chunks_resp_encoding(self@),
    {
        let ghost segs = saved_fetch_chunks_resp_segs(self@);
        let mut buf: Vec<u8> = Vec::new();
        proof { lemma_flatten_take(segs, 0); }
        put_rep_bytes_seg(&mut buf, 1, &self.chunks);
        proof { lemma_flatten_take(segs, 0); }
        assert(buf@ =~= fields_bytes(flatten(segs.take(1))));
        buf
    }

    /// Decodes a message.
    pub fn decode(buf: &[u8]) -> (r: Result<SavedFetchChunksResp, DecodeError>)
        ensures
            match saved_fetch_chunks_resp_decoding(buf@) {
                Some(v) => r matches Ok(m) && m@ == v,
                None => r is Err,
            },
    {
        let fs = match decode_fields(buf) {
            Some(fs) => fs,
            None => { return Err(DecodeError); },
        };
        let chunks = get_rep_bytes(&fs, 1)?;
        Ok(SavedFetchChunksResp { chunks })
    }
}

/// Acknowledgement message.
#[derive(Clone, Debug, PartialEq, Eq)]
pub struct SavedAck {
    /// Operations acknowledged up to.
    pub up_to_op: Vec<Vec<u8>>,
    /// Time of the acknowledgement.
    pub timestamp: u64,
}

/// The mathematical form of a [`SavedAck`].
pub struct SavedAckView {
    pub up_to_op: Seq<Seq<u8>>,
    pub timestamp: u64,
}

impl View for SavedAck {
    type V = SavedAckView;

    open spec fn view(&self) -> SavedAckView {
        SavedAckView {
            up_to_op: bytes_list_view(self.up_to_op@),
            timestamp: self.timestamp,
        }
    }
}

/// The fields that a [`SavedAck`] is sent as, by field.
pub open spec fn saved_ack_segs(m: SavedAckView) -> Seq<Seq<SpecField>> {
    seq![
        seg_rep_bytes(1, m.up_to_op),
        seg_varint(2, m.timestamp),
    ]
}

/// The field numbers of the parts of a [`SavedAck`].
pub open spec fn saved_ack_ranges() -> Seq<(u32, u32)> {
    simple_ranges(2)
}

/// The encoding of a [`SavedAck`].
pub open spec fn saved_ack_encoding(m: SavedAckView) -> Seq<u8> {
    fields_bytes(flatten(saved_ack_segs(m)))
}

/// The [`SavedAck`] that a list of fields describes, if any.
pub open spec fn saved_ack_from_fields(fs: Seq<SpecField>) -> Option<SavedAckView> {
    match get_rep_bytes_spec(fs, 1) {
        Some(x) => { let v0 = x; match get_varint_spec(fs, 2) {
        Some(x) => { let v1 = x; Some(SavedAckView { up_to_op: v0, timestamp: v1 }) },
        None => None,
    } },
        None => None,
    }
}

/// The [`SavedAck`] that bytes encode, if any.
pub open spec fn saved_ack_decoding(b: Seq<u8>) -> Option<SavedAckView> {
    match parse_fields(b) {
        Some(fs) => saved_ack_from_fields(fs),
        None => None,
    }
}

/// Decoding an encoded [`SavedAck`] gives it back.
pub proof fn lemma_saved_ack_round_trip(m: SavedAckView)
    requires
        saved_ack_encoding(m).len() <= u64::MAX,
    ensures
        saved_ack_decoding(saved_ack_encoding(m)) == Some(m),
{
    broadcast use lemma_all_in_segs;
    let segs = saved_ack_segs(m);
    let ranges = saved_ack_ranges();
    assert forall|k: int| 0 <= k < segs.len() implies all_in(#[trigger] segs[k], ranges[k].0, ranges[k].1) by {
        if k == 0 { } else if k == 1 { }
    }
    assert(segs_ok(segs, ranges));
    lemma_flatten_tags_ok(segs, ranges);
    lemma_parse_fields(flatten(segs));

    lemma_flatten_tag(segs, ranges, 0, 1); lemma_get_seg_rep_bytes(1, m.up_to_op);
    lemma_flatten_tag(segs, ranges, 1, 2); lemma_get_seg_varint(2, m.timestamp);
}

impl SavedAck {
    /// Encodes the message.
    pub fn encode_to_vec(&self) -> (r: Vec<u8>)
        ensures
            r@ == saved_ack_encoding(self@),
    {
        let ghost segs = saved_ack_segs(self@);
        let mut buf: Vec<u8> = Vec::new();
        proof { lemma_flatten_take(segs, 0); }
        put_rep_bytes_seg(&mut buf, 1, &self.up_to_op);
        proof { lemma_flatten_take(segs, 0); }
        assert(buf@ =~= fields_bytes(flatten(segs.take(1))));
        put_varint_seg(&mut buf, 2, self.timestamp);
        proof { lemma_flatten_take(segs, 1); }
        assert(buf@ =~= fields_bytes(flatten(segs.take(2))));
        buf
    }

    /// Decodes a message.
    pub fn decode(buf: &[u8]) -> (r: Result<SavedAck, DecodeError>)
        ensures
            match saved_ack_decoding(buf@) {
                Some(v) => r matches Ok(m) && m@ == v,
                None => r is Err,
            },
    {
        let fs = match decode_fields(buf) {
            Some(fs) => fs,
            None => { return Err(DecodeError); },
        };
        let up_to_op = get_rep_bytes(&fs, 1)?;
        let timestamp = get_varint(&fs, 2)?;
        Ok(SavedAck { up_to_op, timestamp })
    }
}

/// Wrapper of every message of the SAVED protocol.
#[derive(Clone, Debug, PartialEq, Eq)]
pub struct SavedMessage {
    /// The message, by its type.
    pub message_type: Option<crate::protobuf::saved_message::MessageType>,
}

/// The mathematical form of a [`SavedMessage`].
pub struct SavedMessageView {
    pub message_type: Option<crate::protobuf::saved_message::MessageTypeView>,
}

impl View for SavedMessage {
    type V = SavedMessageView;

    open spec fn view(&self) -> SavedMessageView {
        SavedMessageView {
            message_type: match &self.message_type { Some(x) => Some(x@), None => None },
        }
    }
}

/// The one-of field `message_type` as sent: one field for the variant that is set.
pub open spec fn saved_message_message_type_seg(o: Option<crate::protobuf::saved_message::MessageTypeView>) -> Seq<SpecField> {
    match o {
        Some(crate::protobuf::saved_message::MessageTypeView::AnnounceHeads(x)) => seq![SpecField { tag: 1, value: SpecValue::Bytes(crate::protobuf::saved_announce_heads_encoding(x)) }],
        Some(crate::protobuf::saved_message::MessageTypeView::FetchOpsReq(x)) => seq![SpecField { tag: 2, value: SpecValue::Bytes(crate::protobuf::saved_fetch_ops_req_encoding(x)) }],
        Some(crate::protobuf::saved_message::MessageTypeView::FetchOpsResp(x)) => seq![SpecField { tag: 3, value: SpecValue::Bytes(crate::protobuf::saved_fetch_ops_resp_encoding(x)) }],
        Some(crate::protobuf::saved_message::MessageTypeView::HaveChunksReq(x)) => seq![SpecField { tag: 4, value: SpecValue::Bytes(crate::protobuf::saved_have_chunks_req_encoding(x)) }],
        Some(crate::protobuf::saved_message::MessageTypeView::HaveChunksResp(x)) => seq![SpecField { tag: 5, value: SpecValue::Bytes(crate::protobuf::saved_have_chunks_resp_encoding(x)) }],
        Some(crate::protobuf::saved_message::MessageTypeView::FetchChunksReq(x)) => seq![SpecField { tag: 6, value: SpecValue::Bytes(crate::protobuf::saved_fetch_chunks_req_encoding(x)) }],
        Some(crate::protobuf::saved_message::MessageTypeView::FetchChunksResp(x)) => seq![SpecField { tag: 7, value: SpecValue::Bytes(crate::protobuf::saved_fetch_chunks_resp_encoding(x)) }],
        Some(crate::protobuf::saved_message::MessageTypeView::Ack(x)) => seq![SpecField { tag: 8, value: SpecValue::Bytes(crate::protobuf::saved_ack_encoding(x)) }],
        None => Seq::empty(),
    }
}

/// The one-of field `message_type`, from the last field sent in its range.
pub open spec fn saved_message_message_type_decoding(g: Option<Option<(u32, Seq<u8>)>>) -> Option<Option<crate::protobuf::saved_message::MessageTypeView>> {
    match g {
        Some(Some((t, b))) => if t == 1 { match crate::protobuf::saved_announce_heads_decoding(b) { Some(x) => Some(Some(crate::protobuf::saved_message::MessageTypeView::AnnounceHeads(x))), None => None } } else if t == 2 { match crate::protobuf::saved_fetch_ops_req_decoding(b) { Some(x) => Some(Some(crate::protobuf::saved_message::MessageTypeView::FetchOpsReq(x))), None => None } } else if t == 3 { match crate::protobuf::saved_fetch_ops_resp_decoding(b) { Some(x) => Some(Some(crate::protobuf::saved_message::MessageTypeView::FetchOpsResp(x))), None => None } } else if t == 4 { match crate::protobuf::saved_have_chunks_req_decoding(b) { Some(x) => Some(Some(crate::protobuf::saved_message::MessageTypeView::HaveChunksReq(x))), None => None } } else if t == 5 { match crate::protobuf::saved_have_chunks_resp_decoding(b) { Some(x) => Some(Some(crate::protobuf::saved_message::MessageTypeView::HaveChunksResp(x))), None => None } } else if t == 6 { match crate::protobuf::saved_fetch_chunks_req_decoding(b) { Some(x) => Some(Some(crate::protobuf::saved_message::MessageTypeView::FetchChunksReq(x))), None => None } } else if t == 7 { match crate::protobuf::saved_fetch_chunks_resp_decoding(b) { Some(x) => Some(Some(crate::protobuf::saved_message::MessageTypeView::FetchChunksResp(x))), None => None } } else if t == 8 { match crate::protobuf::saved_ack_decoding(b) { Some(x) => Some(Some(crate::protobuf::saved_message::MessageTypeView::Ack(x))), None => None } } else { None },
        Some(None) => Some(None),
        None => None,
    }
}

proof fn saved_message_message_type_lemma(o: Option<crate::protobuf::saved_message::MessageTypeView>)
    requires
        fields_bytes(saved_message_message_type_seg(o)).len() <= u64::MAX,
    ensures
        saved_message_message_type_decoding(get_range_last_spec(saved_message_message_type_seg(o), 1, 8)) == Some(o),
        all_in(saved_message_message_type_seg(o), 1, 8),
{
    match o {
        Some(crate::protobuf::saved_message::MessageTypeView::AnnounceHeads(x)) => { lemma_get_range_single(1, crate::protobuf::saved_announce_heads_encoding(x), 1, 8); crate::wire::lemma_fields_bytes_single(SpecField { tag: 1, value: SpecValue::Bytes(crate::protobuf::saved_announce_heads_encoding(x)) }); crate::protobuf::lemma_saved_announce_heads_round_trip(x); },
        Some(crate::protobuf::saved_message::MessageTypeView::FetchOpsReq(x)) => { lemma_get_range_single(2, crate::protobuf::saved_fetch_ops_req_encoding(x), 1, 8); crate::wire::lemma_fields_bytes_single(SpecField { tag: 2, value: SpecValue::Bytes(crate::protobuf::saved_fetch_ops_req_encoding(x)) }); crate::protobuf::lemma_saved_fetch_ops_req_round_trip(x); },
        Some(crate::protobuf::saved_message::MessageTypeView::FetchOpsResp(x)) => { lemma_get_range_single(3, crate::protobuf::saved_fetch_ops_resp_encoding(x), 1, 8); crate::wire::lemma_fields_bytes_single(SpecField { tag: 3, value: SpecValue::Bytes(crate::protobuf::saved_fetch_ops_resp_encoding(x)) }); crate::protobuf::lemma_saved_fetch_ops_resp_round_trip(x); },
        Some(crate::protobuf::saved_message::MessageTypeView::HaveChunksReq(x)) => { lemma_get_range_single(4, crate::protobuf::saved_have_chunks_req_encoding(x), 1, 8); crate::wire::lemma_fields_bytes_single(SpecField { tag: 4, value: SpecValue::Bytes(crate::protobuf::saved_have_chunks_req_encoding(x)) }); crate::protobuf::lemma_saved_have_chunks_req_round_trip(x); },
        Some(crate::protobuf::saved_message::MessageTypeView::HaveChunksResp(x)) => { lemma_get_range_single(5, crate::protobuf::saved_have_chunks_resp_encoding(x), 1, 8); crate::wire::lemma_fields_bytes_single(SpecField { tag: 5, value: SpecValue::Bytes(crate::protobuf::saved_have_chunks_resp_encoding(x)) }); crate::protobuf::lemma_saved_have_chunks_resp_round_trip(x); },
        Some(crate::protobuf::saved_message::MessageTypeView::FetchChunksReq(x)) => { lemma_get_range_single(6, crate::protobuf::saved_fetch_chunks_req_encoding(x), 1, 8); crate::wire::lemma_fields_bytes_single(SpecField { tag: 6, value: SpecValue::Bytes(crate::protobuf::saved_fetch_chunks_req_encoding(x)) }); crate::protobuf::lemma_saved_fetch_chunks_req_round_trip(x); },
        Some(crate::protobuf::saved_message::MessageTypeView::FetchChunksResp(x)) => { lemma_get_range_single(7, crate::protobuf::saved_fetch_chunks_resp_encoding(x), 1, 8); crate::wire::lemma_fields_bytes_single(SpecField { tag: 7, value: SpecValue::Bytes(crate::protobuf::saved_fetch_chunks_resp_encoding(x)) }); crate::protobuf::lemma_saved_fetch_chunks_resp_round_trip(x); },
        Some(crate::protobuf::saved_message::MessageTypeView::Ack(x)) => { lemma_get_range_single(8, crate::protobuf::saved_ack_encoding(x), 1, 8); crate::wire::lemma_fields_bytes_single(SpecField { tag: 8, value: SpecValue::Bytes(crate::protobuf::saved_ack_encoding(x)) }); crate::protobuf::lemma_saved_ack_round_trip(x); },
        None => { lemma_get_range_single(1, Seq::<u8>::empty(), 1, 8); },
    }
}

fn saved_message_message_type_put(buf: &mut Vec<u8>, o: &Option<crate::protobuf::saved_message::MessageType>)
    ensures
        final(buf)@ == old(buf)@ + fields_bytes(saved_message_message_type_seg(match o { Some(x) => Some(x@), None => None })),
{
    match o {
        Some(crate::protobuf::saved_message::MessageType::AnnounceHeads(x)) => { let e = x.encode_to_vec(); put_oneof_field(buf, 1, e.as_slice()); },
        Some(crate::protobuf::saved_message::MessageType::FetchOpsReq(x)) => { let e = x.encode_to_vec(); put_oneof_field(buf, 2, e.as_slice()); },
        Some(crate::protobuf::saved_message::MessageType::FetchOpsResp(x)) => { let e = x.encode_to_vec(); put_oneof_field(buf, 3, e.as_slice()); },
        Some(crate::protobuf::saved_message::MessageType::HaveChunksReq(x)) => { let e = x.encode_to_vec(); put_oneof_field(buf, 4, e.as_slice()); },
        Some(crate::protobuf::saved_message::MessageType::HaveChunksResp(x)) => { let e = x.encode_to_vec(); put_oneof_field(buf, 5, e.as_slice()); },
        Some(crate::protobuf::saved_message::MessageType::FetchChunksReq(x)) => { let e = x.encode_to_vec(); put_oneof_field(buf, 6, e.as_slice()); },
        Some(crate::protobuf::saved_message::MessageType::FetchChunksResp(x)) => { let e = x.encode_to_vec(); put_oneof_field(buf, 7, e.as_slice()); },
        Some(crate::protobuf::saved_message::MessageType::Ack(x)) => { let e = x.encode_to_vec(); put_oneof_field(buf, 8, e.as_slice()); },
        None => { assert(buf@ + Seq::<u8>::empty() =~= buf@); },
    }
}

fn saved_message_message_type_get(fs: &Vec<crate::wire::Field>) -> (r: Result<Option<crate::protobuf::saved_message::MessageType>, DecodeError>)
    ensures
        match saved_message_message_type_decoding(get_range_last_spec(crate::wire::fields_view(fs@), 1, 8)) {
            Some(v) => r matches Ok(x) && (match x { Some(y) => Some(y@), None => None }) == v,
            None => r is Err,
        },
{
    match get_range_last(fs, 1, 8)? {
        Some((t, b)) => if t == 1 { Ok(Some(crate::protobuf::saved_message::MessageType::AnnounceHeads(crate::protobuf::SavedAnnounceHeads::decode(b.as_slice())?))) } else if t == 2 { Ok(Some(crate::protobuf::saved_message::MessageType::FetchOpsReq(crate::protobuf::SavedFetchOpsReq::decode(b.as_slice())?))) } else if t == 3 { Ok(Some(crate::protobuf::saved_message::MessageType::FetchOpsResp(crate::protobuf::SavedFetchOpsResp::decode(b.as_slice())?))) } else if t == 4 { Ok(Some(crate::protobuf::saved_message::MessageType::HaveChunksReq(crate::protobuf::SavedHaveChunksReq::decode(b.as_slice())?))) } else if t == 5 { Ok(Some(crate::protobuf::saved_message::MessageType::HaveChunksResp(crate::protobuf::SavedHaveChunksResp::decode(b.as_slice())?))) } else if t == 6 { Ok(Some(crate::protobuf::saved_message::MessageType::FetchChunksReq(crate::protobuf::SavedFetchChunksReq::decode(b.as_slice())?))) } else if t == 7 { Ok(Some(crate::protobuf::saved_message::MessageType::FetchChunksResp(crate::protobuf::SavedFetchChunksResp::decode(b.as_slice())?))) } else if t == 8 { Ok(Some(crate::protobuf::saved_message::MessageType::Ack(crate::protobuf::SavedAck::decode(b.as_slice())?))) } else { Err(DecodeError) },
        None => Ok(None),
    }
}

/// The fields that a [`SavedMessage`] is sent as, by field.
pub open spec fn saved_message_segs(m: SavedMessageView) -> Seq<Seq<SpecField>> {
    seq![
        saved_message_message_type_seg(m.message_type),
    ]
}

/// The field numbers of the parts of a [`SavedMessage`].
pub open spec fn saved_message_ranges() -> Seq<(u32, u32)> {
    Seq::new(1, |i: int| { (1u32, 8u32) })
}

/// The encoding of a [`SavedMessage`].
pub open spec fn saved_message_encoding(m: SavedMessageView) -> Seq<u8> {
    fields_bytes(flatten(saved_message_segs(m)))
}

/// The [`SavedMessage`] that a list of fields describes, if any.
pub open spec fn saved_message_from_fields(fs: Seq<SpecField>) -> Option<SavedMessageView> {
    match saved_message_message_type_decoding(get_range_last_spec(fs, 1, 8)) {
        Some(x) => { let v0 = x; Some(SavedMessageView { message_type: v0 }) },
        None => None,
    }
}

/// The [`SavedMessage`] that bytes encode, if any.
pub open spec fn saved_message_decoding(b: Seq<u8>) -> Option<SavedMessageView> {
    match parse_fields(b) {
        Some(fs) => saved_message_from_fields(fs),
        None => None,
    }
}

/// Decoding an encoded [`SavedMessage`] gives it back.
pub proof fn lemma_saved_message_round_trip(m: SavedMessageView)
    requires
        saved_message_encoding(m).len() <= u64::MAX,
    ensures
        saved_message_decoding(saved_message_encoding(m)) == Some(m),
{
    broadcast use lemma_all_in_segs;
    let segs = saved_message_segs(m);
    let ranges = saved_message_ranges();
    lemma_flatten_len(segs, 0);
    assert forall|k: int| 0 <= k < segs.len() implies all_in(#[trigger] segs[k], ranges[k].0, ranges[k].1) by {
        if k == 0 { saved_message_message_type_lemma(m.message_type); }
    }
    assert(segs_ok(segs, ranges));
    lemma_flatten_tags_ok(segs, ranges);
    lemma_parse_fields(flatten(segs));

    lemma_flatten_range(segs, ranges, 0); saved_message_message_type_lemma(m.message_type);
}

impl SavedMessage {
    /// Encodes the message.
    pub fn encode_to_vec(&self) -> (r: Vec<u8>)
        ensures
            r@ == saved_message_encoding(self@),
    {
        let ghost segs = saved_message_segs(self@);
        let mut buf: Vec<u8> = Vec::new();
        proof { lemma_flatten_take(segs, 0); }
        saved_message_message_type_put(&mut buf, &self.message_type);
        proof { lemma_flatten_take(segs, 0); }
        assert(buf@ =~= fields_bytes(flatten(segs.take(1))));
        buf
    }

    /// Decodes a message.
    pub fn decode(buf: &[u8]) -> (r: Result<SavedMessage, DecodeError>)
        ensures
            match saved_message_decoding(buf@) {
                Some(v) => r matches Ok(m) && m@ == v,
                None => r is Err,
            },
    {
        let fs = match decode_fields(buf) {
            Some(fs) => fs,
            None => { return Err(DecodeError); },
        };
        let message_type = saved_message_message_type_get(&fs)?;
        Ok(SavedMessage { message_type })
    }
}

} // verus!
