//! The one-of payload of an edit.

use vstd::prelude::*;
use vstd::utf8::*;
use crate::wire::{{decode_fields, fields_bytes, lemma_parse_fields, parse_fields, DecodeError, SpecField, SpecValue}};
use crate::codec::{{
    bits_to_bools, bits_to_i64s, bools_bits, bools_to_bits, bytes_list_view, flatten,
    get_bytes, get_bytes_spec, get_opt_bytes, get_opt_bytes_spec, get_opt_string, get_opt_string_spec,
    get_opt_varint, get_opt_varint_spec, get_packed, get_packed_spec, get_range_last, get_range_last_spec,
    get_rep_bytes, get_rep_bytes_spec, get_string, get_string_spec, get_varint, get_varint_spec,
    i64s_bits, i64s_to_bits, lemma_all_in_segs, lemma_bools_round_trip, lemma_flatten_len,
    lemma_flatten_range, lemma_flatten_tag, lemma_flatten_tags_ok, lemma_flatten_take,
    lemma_get_range_single, lemma_get_seg_bytes, lemma_get_seg_opt_bytes, lemma_get_seg_opt_string,
    lemma_get_seg_opt_varint, lemma_get_seg_packed, lemma_get_seg_rep_bytes, lemma_get_seg_string,
    lemma_get_seg_varint, lemma_i32_cast, lemma_i64_cast, lemma_i64s_round_trip, lemma_seg_opt_bytes_len,
    lemma_seg_rep_bytes_len, lemma_u32_cast, opt_i64_bits, opt_utf8, put_bytes_seg, put_oneof_field,
    put_opt_bytes_seg, put_opt_varint_seg, put_packed_seg, put_rep_bytes_seg, put_string_seg,
    put_varint_seg, range_fields, all_in, segs_ok, seg_bytes, seg_opt_bytes, seg_opt_varint, seg_packed,
    seg_rep_bytes, seg_varint, simple_ranges, utf8_to_string,
}};

verus! {

/// Either the whole new text or a delta (for bandwidth; reserved).
#[derive(Clone, Debug, PartialEq, Eq)]
pub enum Payload {
    /// Replacement of the whole text.
    BodyFull(String),
    /// Delta of the text (reserved).
    BodyDelta(Vec<u8>),
}

/// The mathematical form of a [`Payload`].
pub enum PayloadView {
    BodyFull(Seq<char>),
    BodyDelta(Seq<u8>),
}

impl View for Payload {
    type V = PayloadView;

    open spec fn view(&self) -> PayloadView {
        match self {
            Payload::BodyFull(x) => PayloadView::BodyFull(x@),
            Payload::BodyDelta(x) => PayloadView::BodyDelta(x@),
        }
    }
}

} // verus!
