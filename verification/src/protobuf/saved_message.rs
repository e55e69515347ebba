//! The types of SAVED messages.

use vstd::prelude::*;
use vstd::utf8::*;
use crate::wire::{{decode_fields, fields_bytes, lemma_parse_fields, parse_fields, DecodeError, SpecField, SpecValue}};
use crate::codec::{{
    bits_to_bools, bits_to_i64s, bools_bits, bools_to_bits, bytes_list_view, flatten,
    get_bytes, get_bytes_spec, get_opt_bytes, get_opt_bytes_spec, get_opt_string, get_opt_string_spec,
    get_opt_varint, get_opt_varint_spec, get_packed, get_packed_spec, get_range_last, get_range_last_spec,
    get_rep_bytes, get_rep_bytes_spec, get_string, get_string_spec, get_varint, get_varint_spec,
    i64s_bits, i64s_to_bits, lemma_all_in_segs, lemma_bools_round_trip, lemma_flatten_len,
    lemma_flatten_range, lemma_flatten_tag, lemma_flatten_tags_ok, lemma_flatten_take,
    lemma_get_range_single, lemma_get_seg_bytes, lemma_get_seg_opt_bytes, lemma_get_seg_opt_string,
    lemma_get_seg_opt_varint, lemma_get_seg_packed, lemma_get_seg_rep_bytes, lemma_get_seg_string,
    lemma_get_seg_varint, lemma_i32_cast, lemma_i64_cast, lemma_i64s_round_trip, lemma_seg_opt_bytes_len,
    lemma_seg_rep_bytes_len, lemma_u32_cast, opt_i64_bits, opt_utf8, put_bytes_seg, put_oneof_field,
    put_opt_bytes_seg, put_opt_varint_seg, put_packed_seg, put_rep_bytes_seg, put_string_seg,
    put_varint_seg, range_fields, all_in, segs_ok, seg_bytes, seg_opt_bytes, seg_opt_varint, seg_packed,
    seg_rep_bytes, seg_varint, simple_ranges, utf8_to_string,
}};

verus! {

/// The types of SAVED messages.
#[derive(Clone, Debug, PartialEq, Eq)]
pub enum MessageType {
    /// Head announcement.
    AnnounceHeads(crate::protobuf::SavedAnnounceHeads),
    /// Request for operations.
    FetchOpsReq(crate::protobuf::SavedFetchOpsReq),
    /// Response with operations.
    FetchOpsResp(crate::protobuf::SavedFetchOpsResp),
    /// Chunk availability request.
    HaveChunksReq(crate::protobuf::SavedHaveChunksReq),
    /// Chunk availability response.
    HaveChunksResp(crate::protobuf::SavedHaveChunksResp),
    /// Request for chunks.
    FetchChunksReq(crate::protobuf::SavedFetchChunksReq),
    /// Response with chunks.
    FetchChunksResp(crate::protobuf::SavedFetchChunksResp),
    /// Acknowledgement.
    Ack(crate::protobuf::SavedAck),
}

/// The mathematical form of a [`MessageType`].
pub enum MessageTypeView {
    AnnounceHeads(crate::protobuf::SavedAnnounceHeadsView),
    FetchOpsReq(crate::protobuf::SavedFetchOpsReqView),
    FetchOpsResp(crate::protobuf::SavedFetchOpsRespView),
    HaveChunksReq(crate::protobuf::SavedHaveChunksReqView),
    HaveChunksResp(crate::protobuf::SavedHaveChunksRespView),
    FetchChunksReq(crate::protobuf::SavedFetchChunksReqView),
    FetchChunksResp(crate::protobuf::SavedFetchChunksRespView),
    Ack(crate::protobuf::SavedAckView),
}

impl View for MessageType {
    type V = MessageTypeView;

    open spec fn view(&self) -> MessageTypeView {
        match self {
            MessageType::AnnounceHeads(x) => MessageTypeView::AnnounceHeads(x@),
            MessageType::FetchOpsReq(x) => MessageTypeView::FetchOpsReq(x@),
            MessageType::FetchOpsResp(x) => MessageTypeView::FetchOpsResp(x@),
            MessageType::HaveChunksReq(x) => MessageTypeView::HaveChunksReq(x@),
            MessageType::HaveChunksResp(x) => MessageTypeView::HaveChunksResp(x@),
            MessageType::FetchChunksReq(x) => MessageTypeView::FetchChunksReq(x@),
            MessageType::FetchChunksResp(x) => MessageTypeView::FetchChunksResp(x@),
            MessageType::Ack(x) => MessageTypeView::Ack(x@),
        }
    }
}

} // verus!
