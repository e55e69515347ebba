//! The messages peers exchange on the gossip topics: telling which kind a
//! received message is, and making the attachment metadata requests,
//! answers and announcements.

use vstd::prelude::*;
use crate::attachments::{attachment_views, chunks_of, oldest_first, rows_selected, row_with_id, Attachment, AttachmentStore, AttachmentView, RowFilter};
use crate::codec::bytes_list_view;
use crate::events::{arr32, array_to_vec, copy_string, vec_to_arr32};
use crate::protobuf::{
    announce_attachment_metadata_decoding, announce_heads_decoding, fetch_chunks_req_decoding, fetch_chunks_resp_decoding,
    fetch_ops_req_decoding, fetch_ops_resp_decoding, have_chunks_req_decoding, have_chunks_resp_decoding,
    request_attachment_metadata_req_decoding, request_attachment_metadata_resp_decoding, AnnounceAttachmentMetadata,
    AnnounceHeads, FetchChunksReq, FetchChunksResp, FetchOpsReq, FetchOpsResp, HaveChunksReq, HaveChunksResp,
    RequestAttachmentMetadataReq, RequestAttachmentMetadataResp,
};
use crate::protobuf::announce_attachment_metadata::{AttachmentMetadata as AnnouncedMetadata, AttachmentMetadataView as AnnouncedMetadataView};
use crate::protobuf::request_attachment_metadata_resp::{AttachmentMetadata, AttachmentMetadataView};
use crate::types::{status_code, SavedMessageType};

verus! {

/// Why a received message was not understood.
#[derive(Clone, Copy, Debug, PartialEq, Eq, Structural)]
pub enum GossipError {
    /// The bytes decode as none of the message types.
    UnknownMessageType,
}

/// The kind of a received message: the first of the message types, in a
/// fixed order, as which its bytes decode.
pub fn parse_saved_message(data: &[u8]) -> (r: Result<SavedMessageType, GossipError>)
    ensures
        announce_heads_decoding(data@) matches Some(v) ==> r matches Ok(SavedMessageType::AnnounceHeads(m)) && m@ == v,
        announce_heads_decoding(data@) is None ==> {
            &&& fetch_ops_req_decoding(data@) matches Some(v) ==> r matches Ok(SavedMessageType::FetchOpsReq(m)) && m@ == v
            &&& fetch_ops_req_decoding(data@) is None ==> {
                &&& fetch_ops_resp_decoding(data@) matches Some(v) ==> r matches Ok(SavedMessageType::FetchOpsResp(m)) && m@ == v
                &&& fetch_ops_resp_decoding(data@) is None ==> {
                    &&& have_chunks_req_decoding(data@) matches Some(v) ==> r matches Ok(SavedMessageType::HaveChunksReq(m)) && m@ == v
                    &&& have_chunks_req_decoding(data@) is None ==> {
                        &&& have_chunks_resp_decoding(data@) matches Some(v) ==> r matches Ok(SavedMessageType::HaveChunksResp(m)) && m@ == v
                        &&& have_chunks_resp_decoding(data@) is None ==> {
                            &&& fetch_chunks_req_decoding(data@) matches Some(v) ==> r matches Ok(SavedMessageType::FetchChunksReq(m)) && m@ == v
                            &&& fetch_chunks_req_decoding(data@) is None ==> {
                                &&& fetch_chunks_resp_decoding(data@) matches Some(v) ==> r matches Ok(SavedMessageType::FetchChunksResp(m)) && m@ == v
                                &&& fetch_chunks_resp_decoding(data@) is None ==> {
                                    &&& request_attachment_metadata_req_decoding(data@) matches Some(v)
                                        ==> r matches Ok(SavedMessageType::RequestAttachmentMetadataReq(m)) && m@ == v
                                    &&& request_attachment_metadata_req_decoding(data@) is None ==> {
                                        &&& request_attachment_metadata_resp_decoding(data@) matches Some(v)
                                            ==> r matches Ok(SavedMessageType::RequestAttachmentMetadataResp(m)) && m@ == v
                                        &&& request_attachment_metadata_resp_decoding(data@) is None ==> {
                                            &&& announce_attachment_metadata_decoding(data@) matches Some(v)
                                                ==> r matches Ok(SavedMessageType::AnnounceAttachmentMetadata(m)) && m@ == v
                                            &&& announce_attachment_metadata_decoding(data@) is None
                                                ==> r == Err::<SavedMessageType, GossipError>(GossipError::UnknownMessageType)
                                        }
                                    }
                                }
                            }
                        }
                    }
                }
            }
        },
{
    if let Ok(m) = AnnounceHeads::decode(data) {
        return Ok(SavedMessageType::AnnounceHeads(m));
    }
    if let Ok(m) = FetchOpsReq::decode(data) {
        return Ok(SavedMessageType::FetchOpsReq(m));
    }
    if let Ok(m) = FetchOpsResp::decode(data) {
        return Ok(SavedMessageType::FetchOpsResp(m));
    }
    if let Ok(m) = HaveChunksReq::decode(data) {
        return Ok(SavedMessageType::HaveChunksReq(m));
    }
    if let Ok(m) = HaveChunksResp::decode(data) {
        return Ok(SavedMessageType::HaveChunksResp(m));
    }
    if let Ok(m) = FetchChunksReq::decode(data) {
        return Ok(SavedMessageType::FetchChunksReq(m));
    }
    if let Ok(m) = FetchChunksResp::decode(data) {
        return Ok(SavedMessageType::FetchChunksResp(m));
    }
    if let Ok(m) = RequestAttachmentMetadataReq::decode(data) {
        return Ok(SavedMessageType::RequestAttachmentMetadataReq(m));
    }
    if let Ok(m) = RequestAttachmentMetadataResp::decode(data) {
        return Ok(SavedMessageType::RequestAttachmentMetadataResp(m));
    }
    if let Ok(m) = AnnounceAttachmentMetadata::decode(data) {
        return Ok(SavedMessageType::AnnounceAttachmentMetadata(m));
    }
    Err(GossipError::UnknownMessageType)
}

/// The metadata of an attachment as sent in an answer: its fields, its
/// status as a number, and its chunks.
pub open spec fn answered_metadata(a: AttachmentView, chunk_ids: Seq<[u8; 32]>) -> AttachmentMetadataView {
    AttachmentMetadataView {
        id: a.id,
        message_id: a.message_id@,
        filename: a.filename,
        size: a.size,
        file_hash: a.file_hash@,
        mime_type: a.mime_type,
        status: status_code(a.status) as i32,
        created_at: a.created_at,
        last_accessed: a.last_accessed,
        chunk_ids: Seq::new(chunk_ids.len(), |i: int| chunk_ids[i]@),
    }
}

/// The metadata of an attachment as announced: its fields and its status
/// as a number, without chunks.
pub open spec fn announced_metadata(a: AttachmentView) -> AnnouncedMetadataView {
    AnnouncedMetadataView {
        id: a.id,
        message_id: a.message_id@,
        filename: a.filename,
        size: a.size,
        file_hash: a.file_hash@,
        mime_type: a.mime_type,
        status: status_code(a.status) as i32,
        created_at: a.created_at,
        chunk_ids: Seq::empty(),
    }
}

/// The answer for the attachments asked for by id: each one held, in the
/// order asked.
pub open spec fn answer_by_ids(rows: Seq<AttachmentView>, chunks: Seq<(i64, [u8; 32])>, ids: Seq<i64>) -> Seq<AttachmentMetadataView>
    decreases ids.len(),
{
    if ids.len() == 0 {
        Seq::empty()
    } else {
        let r = answer_by_ids(rows, chunks, ids.drop_last());
        match row_with_id(rows, ids.last()) {
            Some(a) => r.push(answered_metadata(a, chunks_of(chunks, ids.last()))),
            None => r,
        }
    }
}

/// The answer for the attachments of the messages asked for: for each
/// well-formed message id, in the order asked, its attachments oldest
/// first.
pub open spec fn answer_by_messages(rows: Seq<AttachmentView>, chunks: Seq<(i64, [u8; 32])>, msgs: Seq<Seq<u8>>) -> Seq<AttachmentMetadataView>
    decreases msgs.len(),
{
    if msgs.len() == 0 {
        Seq::empty()
    } else {
        let r = answer_by_messages(rows, chunks, msgs.drop_last());
        let m = msgs.last();
        if m.len() == 32 {
            let found = oldest_first(rows_selected(rows, RowFilter::Message(arr32(m))));
            r + Seq::new(found.len(), |i: int| answered_metadata(found[i], chunks_of(chunks, found[i].id)))
        } else {
            r
        }
    }
}

/// Builds the answer's record of an attachment.
fn answer_record(a: &Attachment, chunk_ids: &Vec<[u8; 32]>) -> (r: AttachmentMetadata)
    ensures
        r@ == answered_metadata(a@, chunk_ids@),
{
    let mut ids: Vec<Vec<u8>> = Vec::new();
    let mut i: usize = 0;
    while i < chunk_ids.len()
        invariant
            i <= chunk_ids@.len(),
            ids@.len() == i,
            forall|k: int| 0 <= k < i ==> #[trigger] ids@[k]@ == chunk_ids@[k]@,
        decreases chunk_ids@.len() - i,
    {
        ids.push(array_to_vec(&chunk_ids[i]));
        i = i + 1;
    }
    let r = AttachmentMetadata {
        id: a.id,
        message_id: array_to_vec(&a.message_id.0),
        filename: copy_string(&a.filename),
        size: a.size,
        file_hash: array_to_vec(&a.file_hash),
        mime_type: match &a.mime_type {
            Some(m) => Some(copy_string(m)),
            None => None,
        },
        status: a.status.to_code() as i32,
        created_at: a.created_at,
        last_accessed: a.last_accessed,
        chunk_ids: ids,
    };
    proof {
        assert(bytes_list_view(r.chunk_ids@) =~= Seq::new(chunk_ids@.len(), |k: int| chunk_ids@[k]@));
    }
    r
}

/// Answers a request for attachment metadata from the attachments held:
/// those asked for by id when ids are given, else those of the messages
/// asked for.
pub fn attachment_metadata_response(store: &AttachmentStore, req: &RequestAttachmentMetadataReq) -> (r: RequestAttachmentMetadataResp)
    ensures
        Seq::new(r.attachments@.len(), |i: int| r.attachments@[i]@) == (if req.attachment_ids@.len() > 0 {
            answer_by_ids(store@.rows, store@.chunks, req.attachment_ids@)
        } else {
            answer_by_messages(store@.rows, store@.chunks, bytes_list_view(req.message_ids@))
        }),
{
    let mut out: Vec<AttachmentMetadata> = Vec::new();
    if req.attachment_ids.len() > 0 {
        let ghost ids = req.attachment_ids@;
        let mut i: usize = 0;
        while i < req.attachment_ids.len()
            invariant
                i <= ids.len(),
                ids == req.attachment_ids@,
                Seq::new(out@.len(), |k: int| out@[k]@) == answer_by_ids(store@.rows, store@.chunks, ids.take(i as int)),
            decreases ids.len() - i,
        {
            proof {
                assert(ids.take(i + 1).drop_last() =~= ids.take(i as int));
                assert(ids.take(i + 1).last() == ids[i as int]);
            }
            let ghost ov = Seq::new(out@.len(), |k: int| out@[k]@);
            let id = req.attachment_ids[i];
            match store.get_attachment_by_id(id) {
                Some(a) => {
                    let cs = store.get_attachment_chunks(id);
                    out.push(answer_record(&a, &cs));
                    proof {
                        assert(Seq::new(out@.len(), |k: int| out@[k]@) =~= ov.push(answered_metadata(a@, cs@)));
                    }
                }
                None => {}
            }
            i = i + 1;
        }
        proof { assert(ids.take(ids.len() as int) =~= ids); }
    } else {
        let ghost msgs = bytes_list_view(req.message_ids@);
        let mut i: usize = 0;
        while i < req.message_ids.len()
            invariant
                i <= msgs.len(),
                msgs == bytes_list_view(req.message_ids@),
                Seq::new(out@.len(), |k: int| out@[k]@) == answer_by_messages(store@.rows, store@.chunks, msgs.take(i as int)),
            decreases msgs.len() - i,
        {
            proof {
                assert(msgs.take(i + 1).drop_last() =~= msgs.take(i as int));
                assert(msgs.take(i + 1).last() == msgs[i as int]);
            }
            let m = &req.message_ids[i];
            if m.len() == 32 {
                let id = vec_to_arr32(m.as_slice());
                let found = store.get_attachments_for_message(&crate::ids::MessageId(id));
                let ghost fv = attachment_views(found@);
                let ghost ov = Seq::new(out@.len(), |k: int| out@[k]@);
                let mut j: usize = 0;
                while j < found.len()
                    invariant
                        j <= found@.len(),
                        fv == attachment_views(found@),
                        Seq::new(out@.len(), |k: int| out@[k]@)
                            == ov + Seq::new(j as nat, |k: int| answered_metadata(fv[k], chunks_of(store@.chunks, fv[k].id))),
                    decreases found@.len() - j,
                {
                    let cs = store.get_attachment_chunks(found[j].id);
                    let rec = answer_record(&found[j], &cs);
                    proof {
                        assert(fv[j as int] == found@[j as int]@);
                        assert(rec@ == answered_metadata(fv[j as int], chunks_of(store@.chunks, fv[j as int].id)));
                    }
                    let ghost prev = Seq::new(out@.len(), |k: int| out@[k]@);
                    out.push(rec);
                    proof {
                        let f = |k: int| answered_metadata(fv[k], chunks_of(store@.chunks, fv[k].id));
                        assert(Seq::new(out@.len(), |k: int| out@[k]@) =~= prev.push(rec@));
                        assert(Seq::new((j + 1) as nat, f) =~= Seq::new(j as nat, f).push(f(j as int)));
                        assert(ov + Seq::new(j as nat, f).push(f(j as int)) =~= (ov + Seq::new(j as nat, f)).push(f(j as int)));
                    }
                    j = j + 1;
                }
            }
            i = i + 1;
        }
        proof { assert(msgs.take(msgs.len() as int) =~= msgs); }
    }
    RequestAttachmentMetadataResp { attachments: out }
}

/// Announces attachments: each one's metadata, without chunks.
pub fn announce_attachment_metadata(attachments: &Vec<Attachment>) -> (r: AnnounceAttachmentMetadata)
    ensures
        Seq::new(r.attachments@.len(), |i: int| r.attachments@[i]@)
            == Seq::new(attachments@.len(), |i: int| announced_metadata(attachments@[i]@)),
{
    let mut out: Vec<AnnouncedMetadata> = Vec::new();
    let mut i: usize = 0;
    while i < attachments.len()
        invariant
            i <= attachments@.len(),
            out@.len() == i,
            forall|k: int| 0 <= k < i ==> #[trigger] out@[k]@ == announced_metadata(attachments@[k]@),
        decreases attachments@.len() - i,
    {
        let a = &attachments[i];
        let rec = AnnouncedMetadata {
            id: a.id,
            message_id: array_to_vec(&a.message_id.0),
            filename: copy_string(&a.filename),
            size: a.size,
            file_hash: array_to_vec(&a.file_hash),
            mime_type: match &a.mime_type {
                Some(m) => Some(copy_string(m)),
                None => None,
            },
            status: a.status.to_code() as i32,
            created_at: a.created_at,
            chunk_ids: Vec::new(),
        };
        proof { assert(bytes_list_view(rec.chunk_ids@) =~= Seq::<Seq<u8>>::empty()); }
        out.push(rec);
        i = i + 1;
    }
    proof {
        assert(Seq::new(out@.len(), |i: int| out@[i]@) =~= Seq::new(attachments@.len(), |i: int| announced_metadata(attachments@[i]@)));
    }
    AnnounceAttachmentMetadata { attachments: out }
}

/// A request for the metadata of attachments, by message and by id.
pub fn request_attachment_metadata(message_ids: &Vec<[u8; 32]>, attachment_ids: Vec<i64>) -> (r: RequestAttachmentMetadataReq)
    ensures
        r@.message_ids == Seq::new(message_ids@.len(), |i: int| message_ids@[i]@),
        r@.attachment_ids == attachment_ids@,
{
    let mut ids: Vec<Vec<u8>> = Vec::new();
    let mut i: usize = 0;
    while i < message_ids.len()
        invariant
            i <= message_ids@.len(),
            ids@.len() == i,
            forall|k: int| 0 <= k < i ==> #[trigger] ids@[k]@ == message_ids@[k]@,
        decreases message_ids@.len() - i,
    {
        ids.push(array_to_vec(&message_ids[i]));
        i = i + 1;
    }
    let r = RequestAttachmentMetadataReq { message_ids: ids, attachment_ids };
    proof { assert(r@.message_ids =~= Seq::new(message_ids@.len(), |i: int| message_ids@[i]@)); }
    r
}

} // verus!
