//! The operation log: operations, their hashes, and the append-only log
//! whose heads form the frontier of the causality graph.
//!
//! An operation is identified by the BLAKE3 hash of its id, Lamport time,
//! parents, body and creation time. Adding an operation that is already in
//! the log changes nothing; otherwise the log's Lamport clock moves past
//! the operation's, and the operation replaces its parents among the heads.
//!
//! Times are Unix milliseconds.

use vstd::prelude::*;
use vstd::bytes::*;
use crate::assoc::{assoc_get, assoc_has, lemma_assoc_absent, lemma_assoc_found, lemma_assoc_some};
use crate::crypto::{blake3_digest, blake3_hash};
use crate::ids::{op_id_bytes, OpId};
use crate::codec::bytes_list_view;
use crate::protobuf::{
    ack_body_decoding, attach_body_decoding, create_message_body_decoding,
    delete_message_body_decoding, detach_body_decoding, edit_message_body_decoding,
    purge_body_decoding, lemma_ack_body_round_trip, lemma_attach_body_round_trip,
    lemma_create_message_body_round_trip, lemma_delete_message_body_round_trip,
    lemma_detach_body_round_trip, lemma_edit_message_body_round_trip, lemma_purge_body_round_trip,
    ack_body_encoding, attach_body_encoding, create_message_body_encoding,
    delete_message_body_encoding, detach_body_encoding, edit_message_body_encoding,
    purge_body_encoding, AckBody, AckBodyView, AttachBody, AttachBodyView, CreateMessageBody,
    CreateMessageBodyView, DeleteMessageBody, DeleteMessageBodyView, DetachBody, DetachBodyView,
    EditMessageBody, EditMessageBodyView, PurgeBody, PurgeBodyView,
};
use crate::protobuf::edit_message_body::{Payload, PayloadView};

verus! {

broadcast use vstd::seq_lib::lemma_seq_contains_after_push;

/// The kinds of operation.
pub enum Operation {
    /// Creates a message.
    CreateMessage {
        msg_id: [u8; 32],
        feed_id: String,
        body: String,
        /// Content ids of the attachment chunks.
        attachments: Vec<[u8; 32]>,
        created_at: i64,
    },
    /// Replaces the text of a message.
    EditMessage { msg_id: [u8; 32], body: String, edited_at: i64 },
    /// Deletes a message (it can still be shown as deleted).
    DeleteMessage { msg_id: [u8; 32], reason: Option<String>, deleted_at: i64 },
    /// Attaches chunks to a message.
    Attach { msg_id: [u8; 32], attachment_cids: Vec<[u8; 32]> },
    /// Detaches chunks from a message.
    Detach { msg_id: [u8; 32], attachment_cids: Vec<[u8; 32]> },
    /// Acknowledges the operations up to one.
    Ack { up_to_op: OpId, timestamp: i64 },
    /// Removes a message for good.
    Purge { msg_id: [u8; 32], timestamp: i64 },
}

/// The mathematical form of an [`Operation`].
pub enum OperationView {
    CreateMessage { msg_id: [u8; 32], feed_id: Seq<char>, body: Seq<char>, attachments: Seq<[u8; 32]>, created_at: i64 },
    EditMessage { msg_id: [u8; 32], body: Seq<char>, edited_at: i64 },
    DeleteMessage { msg_id: [u8; 32], reason: Option<Seq<char>>, deleted_at: i64 },
    Attach { msg_id: [u8; 32], attachment_cids: Seq<[u8; 32]> },
    Detach { msg_id: [u8; 32], attachment_cids: Seq<[u8; 32]> },
    Ack { up_to_op: OpId, timestamp: i64 },
    Purge { msg_id: [u8; 32], timestamp: i64 },
}

impl View for Operation {
    type V = OperationView;

    open spec fn view(&self) -> OperationView {
        match self {
            Operation::CreateMessage { msg_id, feed_id, body, attachments, created_at } =>
                OperationView::CreateMessage { msg_id: *msg_id, feed_id: feed_id@, body: body@, attachments: attachments@, created_at: *created_at },
            Operation::EditMessage { msg_id, body, edited_at } =>
                OperationView::EditMessage { msg_id: *msg_id, body: body@, edited_at: *edited_at },
            Operation::DeleteMessage { msg_id, reason, deleted_at } =>
                OperationView::DeleteMessage { msg_id: *msg_id, reason: match reason { Some(r) => Some(r@), None => None }, deleted_at: *deleted_at },
            Operation::Attach { msg_id, attachment_cids } =>
                OperationView::Attach { msg_id: *msg_id, attachment_cids: attachment_cids@ },
            Operation::Detach { msg_id, attachment_cids } =>
                OperationView::Detach { msg_id: *msg_id, attachment_cids: attachment_cids@ },
            Operation::Ack { up_to_op, timestamp } =>
                OperationView::Ack { up_to_op: *up_to_op, timestamp: *timestamp },
            Operation::Purge { msg_id, timestamp } =>
                OperationView::Purge { msg_id: *msg_id, timestamp: *timestamp },
        }
    }
}

/// An operation with its metadata.
pub struct Op {
    /// Who made it, and that device's counter.
    pub id: OpId,
    /// Lamport time.
    pub lamport: u64,
    /// Hashes of the operations it follows.
    pub parents: Vec<[u8; 32]>,
    /// What it does.
    pub operation: Operation,
    /// When it was made.
    pub timestamp: i64,
}

/// The mathematical form of an [`Op`].
pub struct OpView {
    pub id: OpId,
    pub lamport: u64,
    pub parents: Seq<[u8; 32]>,
    pub operation: OperationView,
    pub timestamp: i64,
}

impl View for Op {
    type V = OpView;

    open spec fn view(&self) -> OpView {
        OpView {
            id: self.id,
            lamport: self.lamport,
            parents: self.parents@,
            operation: self.operation@,
            timestamp: self.timestamp,
        }
    }
}

/// The byte strings of a list of 32-byte ids.
pub open spec fn cids_view(v: Seq<[u8; 32]>) -> Seq<Seq<u8>> {
    Seq::new(v.len(), |i: int| v[i]@)
}

/// The canonical bytes of an operation: a byte for its kind, then its body
/// as the protocol's message of that kind. A deletion has two kind bytes,
/// with and without a reason, so that an empty reason stays apart from
/// none (a missing reason is sent as empty text).
pub open spec fn operation_bytes(o: OperationView) -> Seq<u8> {
    match o {
        OperationView::CreateMessage { msg_id, feed_id, body, attachments, created_at } =>
            seq![1u8] + create_message_body_encoding(CreateMessageBodyView {
                msg_id: msg_id@, feed_id, body, att_cids: cids_view(attachments), created_at_ms: created_at,
            }),
        OperationView::EditMessage { msg_id, body, edited_at } =>
            seq![2u8] + edit_message_body_encoding(EditMessageBodyView {
                msg_id: msg_id@, payload: Some(PayloadView::BodyFull(body)), edited_at_ms: edited_at,
            }),
        OperationView::DeleteMessage { msg_id, reason, deleted_at } =>
            seq![if reason is Some { 8u8 } else { 3u8 }] + delete_message_body_encoding(DeleteMessageBodyView {
                msg_id: msg_id@, reason: match reason { Some(r) => r, None => Seq::empty() }, deleted_at_ms: deleted_at,
            }),
        OperationView::Attach { msg_id, attachment_cids } =>
            seq![4u8] + attach_body_encoding(AttachBodyView { msg_id: msg_id@, att_cids: cids_view(attachment_cids) }),
        OperationView::Detach { msg_id, attachment_cids } =>
            seq![5u8] + detach_body_encoding(DetachBodyView { msg_id: msg_id@, att_cids: cids_view(attachment_cids) }),
        OperationView::Ack { up_to_op, timestamp } =>
            seq![6u8] + ack_body_encoding(AckBodyView { up_to_op: op_id_bytes(up_to_op), ts: timestamp }),
        OperationView::Purge { msg_id, timestamp } =>
            seq![7u8] + purge_body_encoding(PurgeBodyView { msg_id: msg_id@, ts: timestamp }),
    }
}

/// The concatenation of a list of 32-byte hashes.
pub open spec fn concat_hashes(hs: Seq<[u8; 32]>) -> Seq<u8>
    decreases hs.len(),
{
    if hs.len() == 0 {
        Seq::empty()
    } else {
        concat_hashes(hs.drop_last()) + hs.last()@
    }
}

/// The bytes that identify an operation: its id (40 bytes), its Lamport
/// time, its parents, its canonical body and its time, integers in
/// little-endian order.
pub open spec fn op_hash_input(op: OpView) -> Seq<u8> {
    op_id_bytes(op.id) + spec_u64_to_le_bytes(op.lamport) + concat_hashes(op.parents)
        + operation_bytes(op.operation) + spec_u64_to_le_bytes(op.timestamp as u64)
}

/// The hash of an operation.
pub open spec fn op_digest(op: OpView) -> [u8; 32] {
    blake3_digest(op_hash_input(op))
}

/// Copies a 32-byte array into a vector.
pub fn array_to_vec(a: &[u8; 32]) -> (v: Vec<u8>)
    ensures
        v@ == a@,
{
    let mut v: Vec<u8> = Vec::with_capacity(32);
    let mut i: usize = 0;
    while i < 32
        invariant
            i <= 32,
            a@.len() == 32,
            v@ =~= a@.subrange(0, i as int),
        decreases 32 - i,
    {
        v.push(a[i]);
        i = i + 1;
    }
    v
}

/// The byte strings of a list of 32-byte ids.
pub fn cids_to_vecs(v: &Vec<[u8; 32]>) -> (r: Vec<Vec<u8>>)
    ensures
        bytes_list_view(r@) == cids_view(v@),
{
    let mut r: Vec<Vec<u8>> = Vec::new();
    let mut i: usize = 0;
    while i < v.len()
        invariant
            i <= v@.len(),
            r@.len() == i,
            forall|j: int| 0 <= j < i ==> #[trigger] r@[j]@ == v@[j]@,
        decreases v@.len() - i,
    {
        r.push(array_to_vec(&v[i]));
        i = i + 1;
    }
    assert(bytes_list_view(r@) =~= cids_view(v@));
    r
}

/// Appends bytes to a vector.
fn append_bytes(buf: &mut Vec<u8>, b: &[u8])
    ensures
        final(buf)@ == old(buf)@ + b@,
{
    let mut i: usize = 0;
    let ghost start = buf@;
    while i < b.len()
        invariant
            i <= b@.len(),
            buf@ =~= start + b@.subrange(0, i as int),
        decreases b@.len() - i,
    {
        buf.push(b[i]);
        i = i + 1;
    }
    assert(b@.subrange(0, b@.len() as int) =~= b@);
}

/// Copies a string.
pub fn copy_string(s: &String) -> (r: String)
    ensures
        r@ == s@,
{
    s.clone()
}

impl Operation {
    /// The canonical bytes of the operation.
    pub fn to_bytes(&self) -> (r: Vec<u8>)
        ensures
            r@ == operation_bytes(self@),
    {
        let mut out: Vec<u8> = Vec::new();
        match self {
            Operation::CreateMessage { msg_id, feed_id, body, attachments, created_at } => {
                out.push(1u8);
                let m = CreateMessageBody {
                    msg_id: array_to_vec(msg_id),
                    feed_id: copy_string(feed_id),
                    body: copy_string(body),
                    att_cids: cids_to_vecs(attachments),
                    created_at_ms: *created_at,
                };
                let e = m.encode_to_vec();
                append_bytes(&mut out, e.as_slice());
            },
            Operation::EditMessage { msg_id, body, edited_at } => {
                out.push(2u8);
                let m = EditMessageBody {
                    msg_id: array_to_vec(msg_id),
                    payload: Some(Payload::BodyFull(copy_string(body))),
                    edited_at_ms: *edited_at,
                };
                let e = m.encode_to_vec();
                append_bytes(&mut out, e.as_slice());
            },
            Operation::DeleteMessage { msg_id, reason, deleted_at } => {
                out.push(if reason.is_some() { 8u8 } else { 3u8 });
                let r = match reason {
                    Some(s) => copy_string(s),
                    None => String::new(),
                };
                let m = DeleteMessageBody { msg_id: array_to_vec(msg_id), reason: r, deleted_at_ms: *deleted_at };
                let e = m.encode_to_vec();
                append_bytes(&mut out, e.as_slice());
            },
            Operation::Attach { msg_id, attachment_cids } => {
                out.push(4u8);
                let m = AttachBody { msg_id: array_to_vec(msg_id), att_cids: cids_to_vecs(attachment_cids) };
                let e = m.encode_to_vec();
                append_bytes(&mut out, e.as_slice());
            },
            Operation::Detach { msg_id, attachment_cids } => {
                out.push(5u8);
                let m = DetachBody { msg_id: array_to_vec(msg_id), att_cids: cids_to_vecs(attachment_cids) };
                let e = m.encode_to_vec();
                append_bytes(&mut out, e.as_slice());
            },
            Operation::Ack { up_to_op, timestamp } => {
                out.push(6u8);
                let m = AckBody { up_to_op: up_to_op.to_bytes(), ts: *timestamp };
                let e = m.encode_to_vec();
                append_bytes(&mut out, e.as_slice());
            },
            Operation::Purge { msg_id, timestamp } => {
                out.push(7u8);
                let m = PurgeBody { msg_id: array_to_vec(msg_id), ts: *timestamp };
                let e = m.encode_to_vec();
                append_bytes(&mut out, e.as_slice());
            },
        }
        out
    }
}

impl Op {
    /// Creates an operation made at time `timestamp`.
    pub fn new(id: OpId, lamport: u64, parents: Vec<[u8; 32]>, operation: Operation, timestamp: i64) -> (r: Op)
        ensures
            r@ == (OpView { id, lamport, parents: parents@, operation: operation@, timestamp }),
    {
        Op { id, lamport, parents, operation, timestamp }
    }

    /// The bytes that identify the operation.
    pub fn hash_input(&self) -> (r: Vec<u8>)
        ensures
            r@ == op_hash_input(self@),
    {
        let mut out = self.id.to_bytes();
        let le = u64_to_le_bytes(self.lamport);
        append_bytes(&mut out, le.as_slice());
        let mut i: usize = 0;
        let ghost start = out@;
        while i < self.parents.len()
            invariant
                i <= self.parents@.len(),
                out@ == start + concat_hashes(self.parents@.take(i as int)),
            decreases self.parents@.len() - i,
        {
            proof {
                assert(self.parents@.take(i as int + 1).drop_last() =~= self.parents@.take(i as int));
            }
            append_bytes(&mut out, self.parents[i].as_slice());
            i = i + 1;
            proof {
                assert(start + concat_hashes(self.parents@.take(i as int - 1)) + self.parents@[i - 1]@
                    =~= start + concat_hashes(self.parents@.take(i as int)));
            }
        }
        assert(self.parents@.take(self.parents@.len() as int) =~= self.parents@);
        let body = self.operation.to_bytes();
        append_bytes(&mut out, body.as_slice());
        let ts = u64_to_le_bytes(self.timestamp as u64);
        append_bytes(&mut out, ts.as_slice());
        assert(out@ =~= op_hash_input(self@));
        out
    }

    /// The hash of the operation (BLAKE3 of [`Self::hash_input`]).
    pub fn hash(&self) -> (h: [u8; 32])
        ensures
            h == op_digest(self@),
    {
        let input = self.hash_input();
        blake3_hash(input.as_slice())
    }
}


/// The mathematical form of an [`EventLog`].
pub struct EventLogView {
    /// The operations with their hashes, in the order they were added.
    pub ops: Seq<([u8; 32], OpView)>,
    /// The frontier of the causality graph.
    pub heads: Set<[u8; 32]>,
    /// The Lamport clock.
    pub lamport: u64,
}

/// The log of operations.
pub struct EventLog {
    operations: Vec<([u8; 32], Op)>,
    heads: Vec<[u8; 32]>,
    current_lamport: u64,
}

impl View for EventLog {
    type V = EventLogView;

    closed spec fn view(&self) -> EventLogView {
        EventLogView {
            ops: Seq::new(self.operations@.len(), |i: int| (self.operations@[i].0, self.operations@[i].1@)),
            heads: self.heads@.to_set(),
            lamport: self.current_lamport,
        }
    }
}

/// Whether a list of operations is a well-formed log: each is stored under
/// its hash, and no hash occurs twice.
pub open spec fn ops_wf(ops: Seq<([u8; 32], OpView)>) -> bool {
    &&& forall|i: int| 0 <= i < ops.len() ==> #[trigger] ops[i].0 == op_digest(ops[i].1)
    &&& forall|i: int, j: int| 0 <= i < j < ops.len() ==> ops[i].0 != ops[j].0
}

/// Adds one to a Lamport time, stopping at the limit.
pub open spec fn lamport_succ(l: u64) -> u64 {
    if l < u64::MAX { (l + 1) as u64 } else { l }
}

/// The log after adding an operation: unchanged when an operation with its
/// hash is there; otherwise the operation is appended, the clock moves
/// past the operation's time, and the operation replaces its parents among
/// the heads.
pub open spec fn log_after_add(l: EventLogView, op: OpView) -> EventLogView {
    let h = op_digest(op);
    if assoc_has(l.ops, h) {
        l
    } else {
        EventLogView {
            ops: l.ops.push((h, op)),
            heads: l.heads.difference(op.parents.to_set()).insert(h),
            lamport: if l.lamport >= lamport_succ(op.lamport) { l.lamport } else { lamport_succ(op.lamport) },
        }
    }
}

/// Whether a hash is one of the hashes of a slice.
pub(crate) fn contains_hash(hs: &[[u8; 32]], h: &[u8; 32]) -> (r: bool)
    ensures
        r == hs@.contains(*h),
{
    let mut i: usize = 0;
    while i < hs.len()
        invariant
            i <= hs@.len(),
            forall|j: int| 0 <= j < i ==> hs@[j] != *h,
        decreases hs@.len() - i,
    {
        if hash_eq(&hs[i], h) {
            return true;
        }
        i = i + 1;
    }
    false
}

/// Whether two hashes are equal.
pub fn hash_eq(a: &[u8; 32], b: &[u8; 32]) -> (r: bool)
    ensures
        r == (*a == *b),
{
    let mut i: usize = 0;
    while i < 32
        invariant
            i <= 32,
            a@.len() == 32,
            b@.len() == 32,
            forall|j: int| 0 <= j < i ==> a@[j] == b@[j],
        decreases 32 - i,
    {
        if a[i] != b[i] {
            return false;
        }
        i = i + 1;
    }
    assert(a@ =~= b@);
    assert forall|j: int| 0 <= j < 32 implies a[j] == b[j] by {
        assert(a[j] == a@[j]);
        assert(b[j] == b@[j]);
    }
    assert(*a =~= *b);
    true
}

impl EventLog {
    /// Whether the log is well formed.
    pub closed spec fn wf(&self) -> bool {
        &&& ops_wf(self@.ops)
        &&& self.heads@.no_duplicates()
    }

    /// An empty log.
    pub fn new() -> (r: Self)
        ensures
            r.wf(),
            r@.ops.len() == 0,
            r@.heads == Set::<[u8; 32]>::empty(),
            r@.lamport == 0,
    {
        let r = EventLog { operations: Vec::new(), heads: Vec::new(), current_lamport: 0 };
        assert(r@.heads =~= Set::<[u8; 32]>::empty());
        r
    }

    /// The index of the operation with a hash.
    fn find(&self, h: &[u8; 32]) -> (r: Option<usize>)
        requires
            self.wf(),
        ensures
            match r {
                Some(i) => i < self@.ops.len() && self@.ops[i as int].0 == *h
                    && assoc_get(self@.ops, *h) == Some(self@.ops[i as int].1),
                None => !assoc_has(self@.ops, *h) && assoc_get(self@.ops, *h) is None,
            },
    {
        let mut i: usize = 0;
        while i < self.operations.len()
            invariant
                i <= self.operations@.len(),
                forall|j: int| 0 <= j < i ==> self@.ops[j].0 != *h,
            decreases self.operations@.len() - i,
        {
            if hash_eq(&self.operations[i].0, h) {
                proof { lemma_assoc_found(self@.ops, i as int, *h); }
                return Some(i);
            }
            i = i + 1;
        }
        proof { lemma_assoc_absent(self@.ops, *h); }
        None
    }

    /// The operation with a hash, if the log has it.
    pub fn get_operation(&self, h: &[u8; 32]) -> (r: Option<&Op>)
        requires
            self.wf(),
        ensures
            match r {
                Some(op) => assoc_get(self@.ops, *h) == Some(op@),
                None => assoc_get(self@.ops, *h) is None,
            },
            r is Some <==> assoc_has(self@.ops, *h),
    {
        match self.find(h) {
            Some(i) => {
                proof { lemma_assoc_some(self@.ops, *h); }
                Some(&self.operations[i].1)
            },
            None => None,
        }
    }

    /// The current heads, each once.
    pub fn get_heads(&self) -> (r: &Vec<[u8; 32]>)
        requires
            self.wf(),
        ensures
            r@.to_set() == self@.heads,
            r@.no_duplicates(),
    {
        &self.heads
    }

    /// The Lamport clock.
    pub fn current_lamport(&self) -> (r: u64)
        ensures
            r == self@.lamport,
    {
        self.current_lamport
    }

    /// All operations, in the order they were added.
    pub fn get_all_operations(&self) -> (r: Vec<&Op>)
        ensures
            r@.len() == self@.ops.len(),
            forall|i: int| 0 <= i < r@.len() ==> #[trigger] r@[i]@ == self@.ops[i].1,
    {
        let mut r: Vec<&Op> = Vec::new();
        let mut i: usize = 0;
        while i < self.operations.len()
            invariant
                i <= self.operations@.len(),
                r@.len() == i,
                forall|j: int| 0 <= j < i ==> #[trigger] r@[j]@ == self@.ops[j].1,
            decreases self.operations@.len() - i,
        {
            r.push(&self.operations[i].1);
            i = i + 1;
        }
        r
    }

    /// Adds an operation and returns its hash (see [`log_after_add`]).
    pub fn add_operation(&mut self, op: Op) -> (h: [u8; 32])
        requires
            old(self).wf(),
        ensures
            final(self).wf(),
            h == op_digest(op@),
            final(self)@ == log_after_add(old(self)@, op@),
    {
        let h = op.hash();
        if self.find(&h).is_some() {
            proof { lemma_assoc_some(self@.ops, h); }
            return h;
        }
        proof { lemma_assoc_some(self@.ops, h); }
        let ghost old_view = self@;
        let next = op.lamport.saturating_add(1);
        if next > self.current_lamport {
            self.current_lamport = next;
        }
        let mut new_heads: Vec<[u8; 32]> = Vec::new();
        let mut i: usize = 0;
        while i < self.heads.len()
            invariant
                i <= self.heads@.len(),
                self.heads@ == old(self).heads@,
                self.heads@.no_duplicates(),
                new_heads@.no_duplicates(),
                forall|x: [u8; 32]| new_heads@.contains(x) <==> (self.heads@.take(i as int).contains(x) && !op.parents@.contains(x) && x != h),
            decreases self.heads@.len() - i,
        {
            let x = self.heads[i];
            let ghost pre = self.heads@.take(i as int);
            proof {
                assert(self.heads@.take(i as int + 1) =~= pre.push(x));
                assert(!pre.contains(x)) by {
                    if pre.contains(x) {
                        let k = choose|k: int| 0 <= k < i && pre[k] == x;
                        assert(self.heads@[k] == self.heads@[i as int]);
                    }
                }
            }
            let keep = !contains_hash(op.parents.as_slice(), &x) && !hash_eq(&x, &h);
            let ghost before = new_heads@;
            if keep {
                proof { assert(!before.contains(x)); }
                new_heads.push(x);
                proof {
                    assert forall|a: int, b: int| 0 <= a < b < new_heads@.len() implies new_heads@[a] != new_heads@[b] by {
                        if b == new_heads@.len() - 1 {
                            assert(before[a] == new_heads@[a]);
                        }
                    }
                }
            }
            proof {
                assert forall|y: [u8; 32]| new_heads@.contains(y) <==> (self.heads@.take(i as int + 1).contains(y) && !op.parents@.contains(y) && y != h) by {
                    assert(self.heads@.take(i as int + 1).contains(y) <==> (pre.contains(y) || y == x));
                    if keep {
                        assert(new_heads@ =~= before.push(x));
                        assert(new_heads@.contains(y) <==> (before.contains(y) || y == x));
                    }
                }
            }
            i = i + 1;
        }
        proof { assert(self.heads@.take(self.heads@.len() as int) =~= self.heads@); }
        let ghost new_heads_before_h = new_heads@;
        new_heads.push(h);
        proof {
            assert(!new_heads_before_h.contains(h));
            assert(new_heads@ =~= new_heads_before_h.push(h));
        }
        self.heads = new_heads;
        self.operations.push((h, op));
        proof {
            let nv = self@;
            assert(nv.ops =~= old_view.ops.push((h, op@)));
            assert forall|y: [u8; 32]| nv.heads.contains(y) <==> old_view.heads.difference(op@.parents.to_set()).insert(h).contains(y) by {
                assert(self.heads@.contains(y) <==> (new_heads_before_h.contains(y) || y == h));
            }
            assert(nv.heads =~= old_view.heads.difference(op@.parents.to_set()).insert(h));
            assert forall|i: int, j: int| 0 <= i < j < nv.ops.len() implies nv.ops[i].0 != nv.ops[j].0 by {
                if j == nv.ops.len() - 1 {
                    assert(old_view.ops[i].0 == nv.ops[i].0);
                }
            }
        }
        h
    }
}


/// The operations of a device by counter; of two with one counter, the one
/// added last.
pub open spec fn device_map(ops: Seq<([u8; 32], OpView)>, pk: [u8; 32]) -> Map<u64, OpView>
    decreases ops.len(),
{
    if ops.len() == 0 {
        Map::empty()
    } else {
        let m = device_map(ops.drop_last(), pk);
        let o = ops.last().1;
        if o.id.device_pubkey == pk { m.insert(o.id.counter, o) } else { m }
    }
}

/// Whether any operation of a device is in the log.
pub open spec fn device_known(ops: Seq<([u8; 32], OpView)>, pk: [u8; 32]) -> bool {
    exists|i: int| 0 <= i < ops.len() && (#[trigger] ops[i].1).id.device_pubkey == pk
}

proof fn lemma_device_map_keys(ops: Seq<([u8; 32], OpView)>, pk: [u8; 32], c: u64)
    ensures
        device_map(ops, pk).contains_key(c) <==> exists|i: int| 0 <= i < ops.len()
            && (#[trigger] ops[i].1).id.device_pubkey == pk && ops[i].1.id.counter == c,
    decreases ops.len(),
{
    if ops.len() > 0 {
        lemma_device_map_keys(ops.drop_last(), pk, c);
        if exists|i: int| 0 <= i < ops.drop_last().len() && (#[trigger] ops.drop_last()[i].1).id.device_pubkey == pk && ops.drop_last()[i].1.id.counter == c {
            let i = choose|i: int| 0 <= i < ops.drop_last().len() && (#[trigger] ops.drop_last()[i].1).id.device_pubkey == pk && ops.drop_last()[i].1.id.counter == c;
            assert(ops[i].1 == ops.drop_last()[i].1);
        }
        if exists|i: int| 0 <= i < ops.len() && (#[trigger] ops[i].1).id.device_pubkey == pk && ops[i].1.id.counter == c {
            let i = choose|i: int| 0 <= i < ops.len() && (#[trigger] ops[i].1).id.device_pubkey == pk && ops[i].1.id.counter == c;
            if i < ops.len() - 1 {
                assert(ops.drop_last()[i].1 == ops[i].1);
            }
        }
    }
}

impl EventLog {
    /// The operations of a device, one per counter (the one added last),
    /// by increasing counter.
    pub fn get_device_operations(&self, pk: &[u8; 32]) -> (r: Vec<&Op>)
        ensures
            forall|a: int, b: int| 0 <= a < b < r@.len() ==> r@[a]@.id.counter < r@[b]@.id.counter,
            forall|a: int| 0 <= a < r@.len() ==> device_map(self@.ops, *pk).contains_key(#[trigger] r@[a]@.id.counter)
                && device_map(self@.ops, *pk)[r@[a]@.id.counter] == r@[a]@,
            forall|c: u64| #[trigger] device_map(self@.ops, *pk).contains_key(c) ==> exists|a: int| 0 <= a < r@.len() && r@[a]@.id.counter == c,
    {
        let mut acc: Vec<&Op> = Vec::new();
        let mut i: usize = 0;
        while i < self.operations.len()
            invariant
                i <= self.operations@.len(),
                forall|a: int, b: int| 0 <= a < b < acc@.len() ==> acc@[a]@.id.counter < acc@[b]@.id.counter,
                forall|a: int| 0 <= a < acc@.len() ==> device_map(self@.ops.take(i as int), *pk).contains_key(#[trigger] acc@[a]@.id.counter)
                    && device_map(self@.ops.take(i as int), *pk)[acc@[a]@.id.counter] == acc@[a]@,
                forall|c: u64| #[trigger] device_map(self@.ops.take(i as int), *pk).contains_key(c) ==> exists|a: int| 0 <= a < acc@.len() && acc@[a]@.id.counter == c,
            decreases self.operations@.len() - i,
        {
            let op = &self.operations[i].1;
            let ghost m0 = device_map(self@.ops.take(i as int), *pk);
            proof {
                assert(self@.ops.take(i as int + 1).drop_last() =~= self@.ops.take(i as int));
                assert(self@.ops.take(i as int + 1).last().1 == op@);
            }
            if hash_eq(&op.id.device_pubkey, pk) {
                let c = op.id.counter;
                let ghost m1 = m0.insert(c, op@);
                let mut p: usize = 0;
                while p < acc.len() && acc[p].id.counter < c
                    invariant
                        p <= acc@.len(),
                        forall|a: int| 0 <= a < p ==> acc@[a]@.id.counter < c,
                    decreases acc@.len() - p,
                {
                    p = p + 1;
                }
                let ghost old_acc = acc@;
                if p < acc.len() && acc[p].id.counter == c {
                    acc.set(p, op);
                    proof {
                        assert forall|c2: u64| #[trigger] m1.contains_key(c2) implies exists|a: int| 0 <= a < acc@.len() && acc@[a]@.id.counter == c2 by {
                            if c2 != c {
                                let a = choose|a: int| 0 <= a < old_acc.len() && old_acc[a]@.id.counter == c2;
                                assert(acc@[a]@.id.counter == c2);
                            } else {
                                assert(acc@[p as int]@.id.counter == c2);
                            }
                        }
                    }
                } else {
                    acc.insert(p, op);
                    proof {
                        old_acc.insert_ensures(p as int, op);
                        assert forall|a: int, b: int| 0 <= a < b < acc@.len() implies acc@[a]@.id.counter < acc@[b]@.id.counter by {
                            if a < p && b > p {
                                assert(acc@[b] == old_acc[b - 1]);
                            } else if a > p {
                                assert(acc@[b] == old_acc[b - 1]);
                                assert(acc@[a] == old_acc[a - 1]);
                            } else if a == p {
                                assert(acc@[b] == old_acc[b - 1]);
                                assert(old_acc[p as int]@.id.counter >= c);
                                if b - 1 > p {
                                    assert(old_acc[p as int]@.id.counter < old_acc[b - 1]@.id.counter);
                                }
                            }
                        }
                        assert forall|a: int| 0 <= a < acc@.len() implies m1.contains_key(#[trigger] acc@[a]@.id.counter)
                            && m1[acc@[a]@.id.counter] == acc@[a]@ by {
                            if a < p {
                                assert(acc@[a] == old_acc[a]);
                            } else if a > p {
                                assert(acc@[a] == old_acc[a - 1]);
                                assert(old_acc[a - 1]@.id.counter != c) by {
                                    if a - 1 > p {
                                        assert(old_acc[p as int]@.id.counter < old_acc[a - 1]@.id.counter);
                                    }
                                }
                            }
                        }
                        assert forall|c2: u64| #[trigger] m1.contains_key(c2) implies exists|a: int| 0 <= a < acc@.len() && acc@[a]@.id.counter == c2 by {
                            if c2 != c {
                                let a = choose|a: int| 0 <= a < old_acc.len() && old_acc[a]@.id.counter == c2;
                                if a < p {
                                    assert(acc@[a]@.id.counter == c2);
                                } else {
                                    assert(acc@[a + 1]@.id.counter == c2);
                                }
                            } else {
                                assert(acc@[p as int]@.id.counter == c2);
                            }
                        }
                    }
                }
            }
            i = i + 1;
        }
        proof { assert(self@.ops.take(self@.ops.len() as int) =~= self@.ops); }
        acc
    }

    /// Whether an operation of a device is in the log.
    fn device_present(&self, pk: &[u8; 32]) -> (r: bool)
        ensures
            r == device_known(self@.ops, *pk),
    {
        let mut i: usize = 0;
        while i < self.operations.len()
            invariant
                i <= self.operations@.len(),
                forall|j: int| 0 <= j < i ==> (#[trigger] self@.ops[j].1).id.device_pubkey != *pk,
            decreases self.operations@.len() - i,
        {
            if hash_eq(&self.operations[i].1.id.device_pubkey, pk) {
                assert(self@.ops[i as int].1.id.device_pubkey == *pk);
                return true;
            }
            i = i + 1;
        }
        false
    }

    /// Whether an operation of a device with a counter is in the log.
    fn has_counter(&self, pk: &[u8; 32], k: u64) -> (r: bool)
        ensures
            r == device_map(self@.ops, *pk).contains_key(k),
    {
        proof { lemma_device_map_keys(self@.ops, *pk, k); }
        let mut j: usize = 0;
        while j < self.operations.len()
            invariant
                j <= self.operations@.len(),
                forall|x: int| 0 <= x < j ==> !((#[trigger] self@.ops[x].1).id.device_pubkey == *pk && self@.ops[x].1.id.counter == k),
            decreases self.operations@.len() - j,
        {
            if self.operations[j].1.id.counter == k && hash_eq(&self.operations[j].1.id.device_pubkey, pk) {
                assert(self@.ops[j as int].1.id.device_pubkey == *pk && self@.ops[j as int].1.id.counter == k);
                proof { lemma_device_map_keys(self@.ops, *pk, k); }
                return true;
            }
            j = j + 1;
        }
        proof { lemma_device_map_keys(self@.ops, *pk, k); }
        false
    }

    /// Whether the log knows the device of `up_to` and holds one of its
    /// operations for every counter from 1 to that of `up_to`.
    pub fn has_operations_up_to(&self, up_to: &OpId) -> (r: bool)
        ensures
            r == (device_known(self@.ops, up_to.device_pubkey)
                && forall|c: u64| 1 <= c <= up_to.counter ==> #[trigger] device_map(self@.ops, up_to.device_pubkey).contains_key(c)),
    {
        let pk = &up_to.device_pubkey;
        if !self.device_present(pk) {
            return false;
        }
        if up_to.counter == 0 {
            return true;
        }
        let mut k: u64 = 1;
        loop
            invariant
                1 <= k <= up_to.counter,
                *pk == up_to.device_pubkey,
                device_known(self@.ops, *pk),
                forall|c: u64| 1 <= c < k ==> #[trigger] device_map(self@.ops, *pk).contains_key(c),
            decreases up_to.counter - k,
        {
            if !self.has_counter(pk, k) {
                assert(!device_map(self@.ops, up_to.device_pubkey).contains_key(k));
                return false;
            }
            if k == up_to.counter {
                assert forall|c: u64| 1 <= c <= up_to.counter implies #[trigger] device_map(self@.ops, up_to.device_pubkey).contains_key(c) by {
                    if c < k {
                    } else {
                        assert(c == k);
                    }
                }
                return true;
            }
            k = k + 1;
        }
    }
}


/// Whether a set of hashes is closed for a walk from `roots`: it holds
/// each logged root, and each logged parent of a logged operation it holds.
pub open spec fn closed_from(ops: Seq<([u8; 32], OpView)>, roots: Set<[u8; 32]>, t: Set<[u8; 32]>) -> bool {
    &&& forall|i: int| 0 <= i < ops.len() && roots.contains(#[trigger] ops[i].0) ==> t.contains(ops[i].0)
    &&& forall|i: int, j: int, k: int|
        0 <= i < ops.len() && 0 <= j < ops.len() && t.contains(#[trigger] ops[i].0)
            && 0 <= k < ops[i].1.parents.len() && #[trigger] ops[i].1.parents[k] == #[trigger] ops[j].0
            ==> t.contains(ops[j].0)
}

/// Whether a hash is reached from `roots` by following parents through the
/// log: it lies in every closed set.
pub open spec fn reached_from(ops: Seq<([u8; 32], OpView)>, roots: Set<[u8; 32]>, h: [u8; 32]) -> bool {
    forall|t: Set<[u8; 32]>| #[trigger] closed_from(ops, roots, t) ==> t.contains(h)
}

proof fn lemma_distinct_subset_len(ops: Seq<([u8; 32], OpView)>, vs: Seq<[u8; 32]>, idx: Seq<int>)
    requires
        vs.no_duplicates(),
        idx.len() == vs.len(),
        forall|k: int| 0 <= k < vs.len() ==> 0 <= #[trigger] idx[k] < ops.len() && ops[idx[k]].0 == vs[k],
    ensures
        vs.len() <= ops.len(),
{
    broadcast use vstd::seq_lib::seq_to_set_is_finite;
    let hs = Seq::new(ops.len(), |i: int| ops[i].0);
    vs.unique_seq_to_set();
    hs.lemma_cardinality_of_set();
    assert forall|x: [u8; 32]| vs.to_set().contains(x) implies hs.to_set().contains(x) by {
        let k = choose|k: int| 0 <= k < vs.len() && vs[k] == x;
        assert(hs[idx[k]] == x);
    }
    vstd::set_lib::lemma_len_subset(vs.to_set(), hs.to_set());
}

/// Whether an operation is one of the log's that are not reached from
/// `roots`: those that came after them.
pub open spec fn op_since(ops: Seq<([u8; 32], OpView)>, roots: Set<[u8; 32]>, v: OpView) -> bool {
    exists|i: int| 0 <= i < ops.len() && #[trigger] ops[i].1 == v && !reached_from(ops, roots, ops[i].0)
}

impl EventLog {
    /// The hashes of the logged operations reached from some hashes by
    /// following parents, each once, in the order a depth-first walk meets
    /// them.
    fn reached_hashes(&self, since_heads: &[[u8; 32]]) -> (v: Vec<[u8; 32]>)
        requires
            self.wf(),
        ensures
            forall|i: int| 0 <= i < self@.ops.len() ==>
                (v@.contains(#[trigger] self@.ops[i].0) <==> reached_from(self@.ops, since_heads@.to_set(), self@.ops[i].0)),
    {
        let ghost ops = self@.ops;
        let ghost roots = since_heads@.to_set();
        let mut visited: Vec<[u8; 32]> = Vec::new();
        let mut to_visit: Vec<[u8; 32]> = vstd::slice::slice_to_vec(since_heads);
        let ghost mut idx: Seq<int> = Seq::empty();
        proof {
            assert forall|i: int| 0 <= i < ops.len() && roots.contains(ops[i].0) implies
                visited@.contains(ops[i].0) || to_visit@.contains(ops[i].0) by {
            }
        }
        while to_visit.len() > 0
            invariant
                self.wf(),
                ops == self@.ops,
                roots == since_heads@.to_set(),
                visited@.no_duplicates(),
                idx.len() == visited@.len(),
                forall|k: int| 0 <= k < visited@.len() ==> 0 <= #[trigger] idx[k] < ops.len()
                    && ops[idx[k]].0 == visited@[k],
                forall|k: int| 0 <= k < visited@.len() ==> reached_from(ops, roots, #[trigger] visited@[k]),
                forall|q: int, i: int| 0 <= q < to_visit@.len() && 0 <= i < ops.len() && #[trigger] to_visit@[q] == #[trigger] ops[i].0
                    ==> reached_from(ops, roots, ops[i].0),
                forall|i: int| 0 <= i < ops.len() && roots.contains(#[trigger] ops[i].0) ==>
                    visited@.contains(ops[i].0) || to_visit@.contains(ops[i].0),
                forall|i: int, j: int, k: int|
                    0 <= i < ops.len() && 0 <= j < ops.len() && visited@.contains(#[trigger] ops[i].0)
                        && 0 <= k < ops[i].1.parents.len() && #[trigger] ops[i].1.parents[k] == #[trigger] ops[j].0
                        ==> visited@.contains(ops[j].0) || to_visit@.contains(ops[j].0),
            decreases ops.len() - visited@.len(), to_visit@.len(),
        {
            let ghost tv0 = to_visit@;
            let h = to_visit.pop().unwrap();
            proof {
                assert(tv0 =~= to_visit@.push(h));
                assert forall|x: [u8; 32]| tv0.contains(x) && x != h implies to_visit@.contains(x) by {
                    let q = choose|q: int| 0 <= q < tv0.len() && tv0[q] == x;
                    assert(q < to_visit@.len());
                    assert(to_visit@[q] == x);
                }
            }
            proof { lemma_distinct_subset_len(ops, visited@, idx); }
            if contains_hash(visited.as_slice(), &h) {
            } else {
                match self.find(&h) {
                    None => {
                        proof {
                            assert(forall|i: int| 0 <= i < ops.len() ==> ops[i].0 != h);
                        }
                    },
                    Some(i) => {
                        let op = &self.operations[i].1;
                        let ghost v0 = visited@;
                        proof {
                            assert(tv0[tv0.len() - 1] == ops[i as int].0);
                            assert(reached_from(ops, roots, h));
                        }
                        visited.push(h);
                        proof {
                            idx = idx.push(i as int);
                            assert(visited@ =~= v0.push(h));
                            assert forall|a: int, b: int| 0 <= a < b < visited@.len() implies visited@[a] != visited@[b] by {
                                if b == visited@.len() - 1 {
                                    assert(v0[a] == visited@[a]);
                                }
                            }
                            lemma_distinct_subset_len(ops, visited@, idx);
                        }
                        let ghost tv1 = to_visit@;
                        let mut p: usize = 0;
                        while p < op.parents.len()
                            invariant
                                ops == self@.ops,
                                0 <= i < ops.len(),
                                op@ == ops[i as int].1,
                                reached_from(ops, roots, ops[i as int].0),
                                p <= op.parents@.len(),
                                to_visit@ =~= tv1 + op.parents@.take(p as int),
                            decreases op.parents@.len() - p,
                        {
                            to_visit.push(op.parents[p]);
                            p = p + 1;
                            proof { assert(to_visit@ =~= tv1 + op.parents@.take(p as int)); }
                        }
                        proof {
                            assert(op.parents@.take(op.parents@.len() as int) =~= op.parents@);
                            assert(to_visit@ =~= tv1 + op.parents@);
                            assert forall|q: int, j: int| 0 <= q < to_visit@.len() && 0 <= j < ops.len() && #[trigger] to_visit@[q] == #[trigger] ops[j].0
                                implies reached_from(ops, roots, ops[j].0) by {
                                if q >= tv1.len() {
                                    let k = q - tv1.len();
                                    assert(ops[i as int].1.parents[k] == ops[j].0);
                                    assert forall|t: Set<[u8; 32]>| #[trigger] closed_from(ops, roots, t) implies t.contains(ops[j].0) by {
                                        assert(t.contains(ops[i as int].0));
                                    }
                                } else {
                                    assert(tv0[q] == to_visit@[q]);
                                }
                            }
                            assert forall|x: [u8; 32]| tv1.contains(x) implies to_visit@.contains(x) by {
                                let q = choose|q: int| 0 <= q < tv1.len() && tv1[q] == x;
                                assert(to_visit@[q] == x);
                            }
                            assert forall|k: int| 0 <= k < op.parents@.len() implies to_visit@.contains(#[trigger] op.parents@[k]) by {
                                assert(to_visit@[tv1.len() + k] == op.parents@[k]);
                            }
                        }
                    },
                }
            }
        }
        proof {
            let vset = visited@.to_set();
            assert(closed_from(ops, roots, vset));
            assert forall|i: int| 0 <= i < ops.len() implies
                (visited@.contains(#[trigger] ops[i].0) <==> reached_from(ops, roots, ops[i].0)) by {
                if visited@.contains(ops[i].0) {
                    let k = choose|k: int| 0 <= k < visited@.len() && visited@[k] == ops[i].0;
                    assert(reached_from(ops, roots, visited@[k]));
                }
                if reached_from(ops, roots, ops[i].0) {
                    assert(vset.contains(ops[i].0));
                }
            }
        }
        visited
    }

    /// The operations since some heads: those of the log that are not
    /// reached from them by following parents, each once, in the order
    /// they were logged. With no heads, that is every operation.
    pub fn get_operations_since(&self, since_heads: &[[u8; 32]]) -> (r: Vec<&Op>)
        requires
            self.wf(),
        ensures
            forall|k: int| 0 <= k < r@.len() ==> op_since(self@.ops, since_heads@.to_set(), #[trigger] r@[k]@),
            forall|i: int| 0 <= i < self@.ops.len() && !reached_from(self@.ops, since_heads@.to_set(), #[trigger] self@.ops[i].0)
                ==> exists|k: int| 0 <= k < r@.len() && r@[k]@ == self@.ops[i].1,
            forall|a: int, b: int| 0 <= a < b < r@.len() ==> r@[a]@ != r@[b]@,
    {
        let ghost ops = self@.ops;
        let ghost roots = since_heads@.to_set();
        let reached = self.reached_hashes(since_heads);
        let mut result: Vec<&Op> = Vec::new();
        let ghost mut idx: Seq<int> = Seq::empty();
        let mut i: usize = 0;
        while i < self.operations.len()
            invariant
                self.wf(),
                ops == self@.ops,
                roots == since_heads@.to_set(),
                i <= ops.len(),
                forall|j: int| 0 <= j < ops.len() ==>
                    (reached@.contains(#[trigger] ops[j].0) <==> reached_from(ops, roots, ops[j].0)),
                idx.len() == result@.len(),
                forall|k: int| 0 <= k < result@.len() ==> 0 <= #[trigger] idx[k] < i
                    && result@[k]@ == ops[idx[k]].1 && !reached_from(ops, roots, ops[idx[k]].0),
                forall|a: int, b: int| 0 <= a < b < result@.len() ==> idx[a] < idx[b],
                forall|j: int| 0 <= j < i && !reached_from(ops, roots, #[trigger] ops[j].0)
                    ==> exists|k: int| 0 <= k < result@.len() && idx[k] == j,
            decreases ops.len() - i,
        {
            if !contains_hash(reached.as_slice(), &self.operations[i].0) {
                proof { assert(!reached_from(ops, roots, ops[i as int].0)); }
                let ghost idx0 = idx;
                result.push(&self.operations[i].1);
                proof {
                    idx = idx.push(i as int);
                    assert(result@[result@.len() - 1]@ == ops[i as int].1);
                    assert(idx[idx.len() - 1] == i as int);
                    assert forall|j: int| 0 <= j < i + 1 && !reached_from(ops, roots, #[trigger] ops[j].0)
                        implies exists|k: int| 0 <= k < result@.len() && idx[k] == j by {
                        if j < i {
                            let k = choose|k: int| 0 <= k < idx0.len() && idx0[k] == j;
                            assert(idx[k] == j);
                        } else {
                            assert(idx[idx.len() - 1] == j);
                        }
                    }
                }
            } else {
                proof { assert(reached_from(ops, roots, ops[i as int].0)); }
            }
            i = i + 1;
        }
        proof {
            assert forall|k: int| 0 <= k < result@.len() implies op_since(ops, roots, #[trigger] result@[k]@) by {
                assert(ops[idx[k]].1 == result@[k]@);
            }
            assert forall|j: int| 0 <= j < ops.len() && !reached_from(ops, roots, #[trigger] ops[j].0)
                implies exists|k: int| 0 <= k < result@.len() && result@[k]@ == ops[j].1 by {
                let k = choose|k: int| 0 <= k < result@.len() && idx[k] == j;
                assert(result@[k]@ == ops[j].1);
            }
            assert forall|a: int, b: int| 0 <= a < b < result@.len() implies result@[a]@ != result@[b]@ by {
                assert(idx[a] < idx[b]);
                assert(ops[idx[a]].0 == op_digest(ops[idx[a]].1));
                assert(ops[idx[b]].0 == op_digest(ops[idx[b]].1));
                assert(ops[idx[a]].0 != ops[idx[b]].0);
            }
        }
        result
    }
}


/// Adding an operation twice leaves the log as adding it once.
pub proof fn lemma_add_idempotent(l: EventLogView, op: OpView)
    ensures
        log_after_add(log_after_add(l, op), op) == log_after_add(l, op),
{
    let h = op_digest(op);
    let l1 = log_after_add(l, op);
    if !assoc_has(l.ops, h) {
        assert(l1.ops[l1.ops.len() - 1].0 == h);
    }
}

/// After an operation is added, it is a head and none of its parents is;
/// the clock never goes back and moves past the operation's time.
pub proof fn lemma_add_heads_and_clock(l: EventLogView, op: OpView)
    requires
        !assoc_has(l.ops, op_digest(op)),
    ensures
        log_after_add(l, op).heads.contains(op_digest(op)),
        forall|k: int| 0 <= k < op.parents.len() && op.parents[k] != op_digest(op)
            ==> !log_after_add(l, op).heads.contains(#[trigger] op.parents[k]),
        log_after_add(l, op).lamport >= l.lamport,
        op.lamport < u64::MAX ==> log_after_add(l, op).lamport > op.lamport,
        log_after_add(l, op).ops.len() == l.ops.len() + 1,
{
    assert forall|k: int| 0 <= k < op.parents.len() && op.parents[k] != op_digest(op)
        implies !log_after_add(l, op).heads.contains(#[trigger] op.parents[k]) by {
        assert(op.parents.to_set().contains(op.parents[k]));
    }
}


/// The array whose bytes are `s`.
pub open spec fn arr32(s: Seq<u8>) -> [u8; 32] {
    choose|a: [u8; 32]| a@ == s
}

/// The arrays whose bytes are those of a list.
pub open spec fn arrs32(bs: Seq<Seq<u8>>) -> Seq<[u8; 32]> {
    Seq::new(bs.len(), |i: int| arr32(bs[i]))
}

/// Whether each byte string of a list is 32 bytes long.
pub open spec fn all32(bs: Seq<Seq<u8>>) -> bool {
    forall|i: int| 0 <= i < bs.len() ==> (#[trigger] bs[i]).len() == 32
}

/// The operation id whose 40-byte form is `b`.
pub open spec fn op_id_of(b: Seq<u8>) -> OpId {
    choose|id: OpId| op_id_bytes(id) == b
}

/// The operation that canonical bytes describe, if any (see
/// [`operation_bytes`]): empty deletion reasons read as none; ids must be
/// 32 bytes long and operation ids 40; an edit must carry its whole text.
pub open spec fn operation_from_bytes(b: Seq<u8>) -> Option<OperationView> {
    if b.len() == 0 {
        None
    } else {
        let body = b.drop_first();
        if b[0] == 1 {
            match create_message_body_decoding(body) {
                Some(m) => if m.msg_id.len() == 32 && all32(m.att_cids) {
                    Some(OperationView::CreateMessage { msg_id: arr32(m.msg_id), feed_id: m.feed_id, body: m.body, attachments: arrs32(m.att_cids), created_at: m.created_at_ms })
                } else { None },
                None => None,
            }
        } else if b[0] == 2 {
            match edit_message_body_decoding(body) {
                Some(m) => match m.payload {
                    Some(PayloadView::BodyFull(t)) => if m.msg_id.len() == 32 {
                        Some(OperationView::EditMessage { msg_id: arr32(m.msg_id), body: t, edited_at: m.edited_at_ms })
                    } else { None },
                    _ => None,
                },
                None => None,
            }
        } else if b[0] == 3 || b[0] == 8 {
            match delete_message_body_decoding(body) {
                Some(m) => if m.msg_id.len() == 32 {
                    Some(OperationView::DeleteMessage {
                        msg_id: arr32(m.msg_id),
                        reason: if b[0] == 8 || m.reason.len() > 0 { Some(m.reason) } else { None },
                        deleted_at: m.deleted_at_ms,
                    })
                } else { None },
                None => None,
            }
        } else if b[0] == 4 {
            match attach_body_decoding(body) {
                Some(m) => if m.msg_id.len() == 32 && all32(m.att_cids) {
                    Some(OperationView::Attach { msg_id: arr32(m.msg_id), attachment_cids: arrs32(m.att_cids) })
                } else { None },
                None => None,
            }
        } else if b[0] == 5 {
            match detach_body_decoding(body) {
                Some(m) => if m.msg_id.len() == 32 && all32(m.att_cids) {
                    Some(OperationView::Detach { msg_id: arr32(m.msg_id), attachment_cids: arrs32(m.att_cids) })
                } else { None },
                None => None,
            }
        } else if b[0] == 6 {
            match ack_body_decoding(body) {
                Some(m) => if m.up_to_op.len() == 40 {
                    Some(OperationView::Ack { up_to_op: op_id_of(m.up_to_op), timestamp: m.ts })
                } else { None },
                None => None,
            }
        } else if b[0] == 7 {
            match purge_body_decoding(body) {
                Some(m) => if m.msg_id.len() == 32 {
                    Some(OperationView::Purge { msg_id: arr32(m.msg_id), timestamp: m.ts })
                } else { None },
                None => None,
            }
        } else {
            None
        }
    }
}

/// An array is the one its bytes name.
pub proof fn lemma_arr32(a: [u8; 32])
    ensures
        arr32(a@) == a,
{
    let c = arr32(a@);
    assert(c@ == a@);
    assert forall|j: int| 0 <= j < 32 implies c[j] == a[j] by {
        assert(c[j] == c@[j]);
        assert(a[j] == a@[j]);
    }
    assert(c =~= a);
}

pub proof fn lemma_arrs32(v: Seq<[u8; 32]>)
    ensures
        all32(cids_view(v)),
        arrs32(cids_view(v)) == v,
{
    assert forall|i: int| 0 <= i < v.len() implies arrs32(cids_view(v))[i] == v[i] by {
        lemma_arr32(v[i]);
    }
    assert(arrs32(cids_view(v)) =~= v);
}

/// Reading the canonical bytes of an operation gives it back.
pub proof fn lemma_operation_round_trip(o: OperationView)
    requires
        operation_bytes(o).len() <= u64::MAX,
    ensures
        operation_from_bytes(operation_bytes(o)) == Some(o),
{
    let b = operation_bytes(o);
    match o {
        OperationView::CreateMessage { msg_id, feed_id, body, attachments, created_at } => {
            let m = CreateMessageBodyView { msg_id: msg_id@, feed_id, body, att_cids: cids_view(attachments), created_at_ms: created_at };
            assert(b.drop_first() =~= create_message_body_encoding(m));
            lemma_create_message_body_round_trip(m);
            lemma_arr32(msg_id);
            lemma_arrs32(attachments);
        },
        OperationView::EditMessage { msg_id, body, edited_at } => {
            let m = EditMessageBodyView { msg_id: msg_id@, payload: Some(PayloadView::BodyFull(body)), edited_at_ms: edited_at };
            assert(b.drop_first() =~= edit_message_body_encoding(m));
            lemma_edit_message_body_round_trip(m);
            lemma_arr32(msg_id);
        },
        OperationView::DeleteMessage { msg_id, reason, deleted_at } => {
            let m = DeleteMessageBodyView { msg_id: msg_id@, reason: match reason { Some(r) => r, None => Seq::empty() }, deleted_at_ms: deleted_at };
            assert(b.drop_first() =~= delete_message_body_encoding(m));
            lemma_delete_message_body_round_trip(m);
            lemma_arr32(msg_id);
        },
        OperationView::Attach { msg_id, attachment_cids } => {
            let m = AttachBodyView { msg_id: msg_id@, att_cids: cids_view(attachment_cids) };
            assert(b.drop_first() =~= attach_body_encoding(m));
            lemma_attach_body_round_trip(m);
            lemma_arr32(msg_id);
            lemma_arrs32(attachment_cids);
        },
        OperationView::Detach { msg_id, attachment_cids } => {
            let m = DetachBodyView { msg_id: msg_id@, att_cids: cids_view(attachment_cids) };
            assert(b.drop_first() =~= detach_body_encoding(m));
            lemma_detach_body_round_trip(m);
            lemma_arr32(msg_id);
            lemma_arrs32(attachment_cids);
        },
        OperationView::Ack { up_to_op, timestamp } => {
            let m = AckBodyView { up_to_op: op_id_bytes(up_to_op), ts: timestamp };
            assert(b.drop_first() =~= ack_body_encoding(m));
            lemma_ack_body_round_trip(m);
            crate::ids::lemma_op_id_round_trip(up_to_op);
            let c = op_id_of(op_id_bytes(up_to_op));
            assert(op_id_bytes(c) == op_id_bytes(up_to_op));
        },
        OperationView::Purge { msg_id, timestamp } => {
            let m = PurgeBodyView { msg_id: msg_id@, ts: timestamp };
            assert(b.drop_first() =~= purge_body_encoding(m));
            lemma_purge_body_round_trip(m);
            lemma_arr32(msg_id);
        },
    }
}

/// The array holding 32 bytes.
pub fn vec_to_arr32(v: &[u8]) -> (a: [u8; 32])
    requires
        v@.len() == 32,
    ensures
        a == arr32(v@),
{
    let a = crate::ids::bytes32_from_slice(v);
    proof { lemma_arr32(a); }
    a
}

/// The arrays holding a list of 32-byte strings, if each is 32 bytes long.
pub fn vecs_to_arrs32(bs: &Vec<Vec<u8>>) -> (r: Option<Vec<[u8; 32]>>)
    ensures
        all32(bytes_list_view(bs@)) ==> (r matches Some(v) && v@ == arrs32(bytes_list_view(bs@))),
        !all32(bytes_list_view(bs@)) ==> r is None,
{
    let ghost bl = bytes_list_view(bs@);
    let mut out: Vec<[u8; 32]> = Vec::new();
    let mut i: usize = 0;
    while i < bs.len()
        invariant
            i <= bs@.len(),
            bl == bytes_list_view(bs@),
            out@.len() == i,
            forall|j: int| 0 <= j < i ==> (#[trigger] bl[j]).len() == 32,
            forall|j: int| 0 <= j < i ==> #[trigger] out@[j] == arr32(bl[j]),
        decreases bs@.len() - i,
    {
        if bs[i].len() != 32 {
            proof { assert(bl[i as int].len() != 32); }
            return None;
        }
        let a = vec_to_arr32(bs[i].as_slice());
        let ghost before = out@;
        proof { assert(bl[i as int] == bs@[i as int]@); assert(bl[i as int].len() == 32); }
        out.push(a);
        proof {
            assert forall|j: int| 0 <= j < i + 1 implies #[trigger] out@[j] == arr32(bl[j]) by {
                if j < i {
                    assert(out@[j] == before[j]);
                }
            }
        }
        i = i + 1;
    }
    proof {
        assert(out@ =~= arrs32(bl));
    }
    Some(out)
}

impl Operation {
    /// The operation that canonical bytes describe (see
    /// [`operation_from_bytes`]).
    pub fn from_bytes(b: &[u8]) -> (r: Option<Operation>)
        ensures
            match operation_from_bytes(b@) {
                Some(o) => r matches Some(x) && x@ == o,
                None => r is None,
            },
    {
        if b.len() == 0 {
            return None;
        }
        let kind = b[0];
        let body = crate::ids::slice_subrange(b, 1, b.len());
        proof { assert(body@ =~= b@.drop_first()); }
        if kind == 1 {
            let m = match CreateMessageBody::decode(body) { Ok(m) => m, Err(_) => { return None; } };
            if m.msg_id.len() != 32 {
                return None;
            }
            let cids = match vecs_to_arrs32(&m.att_cids) { Some(v) => v, None => { return None; } };
            Some(Operation::CreateMessage { msg_id: vec_to_arr32(m.msg_id.as_slice()), feed_id: m.feed_id, body: m.body, attachments: cids, created_at: m.created_at_ms })
        } else if kind == 2 {
            let m = match EditMessageBody::decode(body) { Ok(m) => m, Err(_) => { return None; } };
            let text = match m.payload { Some(Payload::BodyFull(t)) => t, _ => { return None; } };
            if m.msg_id.len() != 32 {
                return None;
            }
            Some(Operation::EditMessage { msg_id: vec_to_arr32(m.msg_id.as_slice()), body: text, edited_at: m.edited_at_ms })
        } else if kind == 3 || kind == 8 {
            let m = match DeleteMessageBody::decode(body) { Ok(m) => m, Err(_) => { return None; } };
            if m.msg_id.len() != 32 {
                return None;
            }
            let reason = if kind == 8 || !m.reason.as_str().is_empty() { Some(m.reason) } else { None };
            Some(Operation::DeleteMessage { msg_id: vec_to_arr32(m.msg_id.as_slice()), reason, deleted_at: m.deleted_at_ms })
        } else if kind == 4 {
            let m = match AttachBody::decode(body) { Ok(m) => m, Err(_) => { return None; } };
            if m.msg_id.len() != 32 {
                return None;
            }
            let cids = match vecs_to_arrs32(&m.att_cids) { Some(v) => v, None => { return None; } };
            Some(Operation::Attach { msg_id: vec_to_arr32(m.msg_id.as_slice()), attachment_cids: cids })
        } else if kind == 5 {
            let m = match DetachBody::decode(body) { Ok(m) => m, Err(_) => { return None; } };
            if m.msg_id.len() != 32 {
                return None;
            }
            let cids = match vecs_to_arrs32(&m.att_cids) { Some(v) => v, None => { return None; } };
            Some(Operation::Detach { msg_id: vec_to_arr32(m.msg_id.as_slice()), attachment_cids: cids })
        } else if kind == 6 {
            let m = match AckBody::decode(body) { Ok(m) => m, Err(_) => { return None; } };
            if m.up_to_op.len() != 40 {
                return None;
            }
            match OpId::from_bytes(m.up_to_op.as_slice()) {
                Ok(id) => {
                    proof { crate::ids::lemma_op_id_round_trip(id); }
                    Some(Operation::Ack { up_to_op: id, timestamp: m.ts })
                },
                Err(_) => None,
            }
        } else if kind == 7 {
            let m = match PurgeBody::decode(body) { Ok(m) => m, Err(_) => { return None; } };
            if m.msg_id.len() != 32 {
                return None;
            }
            Some(Operation::Purge { msg_id: vec_to_arr32(m.msg_id.as_slice()), timestamp: m.ts })
        } else {
            None
        }
    }
}

} // verus!
