//! Synchronisation of a replica: local operations, operations from other
//! devices with conflict resolution, and the materialised messages.
//!
//! Local operations are added to the log and applied to the messages
//! directly. An operation from another device is checked (its parents must
//! be in the log and its Lamport time at most 1000 ahead of the clock),
//! added, and the message it concerns is recomputed from all of that
//! message's operations.

use vstd::prelude::*;
use crate::assoc::{
    assoc_get, assoc_has, assoc_remove_all, lemma_assoc_absent, lemma_assoc_found,
    lemma_assoc_push, lemma_assoc_push_any, lemma_assoc_remove_all, lemma_assoc_some,
    lemma_assoc_update, keys_distinct, lemma_remove_all_distinct,
};
use crate::clock::utc_now_ms;
use crate::crdt::{
    crdt_resolve_message_conflicts, distinct_keys, edited_state, is_delete, is_edit, is_purge, lemma_first_creation_wins,
    lemma_last_write_wins,
    lemma_purge_overrides_all, op_before, resolve_ops, ResolvedMessageState, ResolvedView,
};
use crate::events::{
    copy_string, hash_eq, log_after_add, op_digest, reached_from, op_since, EventLog, EventLogView, Op, OpView, Operation,
    OperationView,
};
use crate::ids::{MessageId, OpId};

verus! {

/// A message as shown to the user. Times are Unix milliseconds.
#[derive(Debug)]
pub struct Message {
    pub id: MessageId,
    pub content: String,
    pub created_at: i64,
    pub is_deleted: bool,
    pub is_purged: bool,
}

/// The mathematical form of a [`Message`].
pub struct MessageView {
    pub id: [u8; 32],
    pub content: Seq<char>,
    pub created_at: i64,
    pub is_deleted: bool,
    pub is_purged: bool,
}

impl View for Message {
    type V = MessageView;

    open spec fn view(&self) -> MessageView {
        MessageView {
            id: self.id.0,
            content: self.content@,
            created_at: self.created_at,
            is_deleted: self.is_deleted,
            is_purged: self.is_purged,
        }
    }
}

impl Message {
    /// A copy of the message.
    pub fn duplicate(&self) -> (r: Message)
        ensures
            r@ == self@,
    {
        Message {
            id: self.id,
            content: copy_string(&self.content),
            created_at: self.created_at,
            is_deleted: self.is_deleted,
            is_purged: self.is_purged,
        }
    }
}

/// The messages of a list that are not deleted, in order.
pub open spec fn undeleted(s: Seq<MessageView>) -> Seq<MessageView>
    decreases s.len(),
{
    if s.len() == 0 {
        Seq::empty()
    } else if s.last().is_deleted {
        undeleted(s.drop_last())
    } else {
        undeleted(s.drop_last()).push(s.last())
    }
}

/// Whether `shown` lists each message of `msgs` that is not deleted, and
/// nothing else, each id once.
pub open spec fn lists_each_once(msgs: Seq<([u8; 32], MessageView)>, shown: Seq<MessageView>) -> bool {
    &&& forall|a: int, b: int| 0 <= a < b < shown.len() ==> shown[a].id != shown[b].id
    &&& forall|k: int| 0 <= k < shown.len() ==>
        assoc_get(msgs, #[trigger] shown[k].id) == Some(shown[k]) && !shown[k].is_deleted
    &&& forall|n: [u8; 32]| #[trigger] assoc_get(msgs, n) matches Some(m) && !m.is_deleted ==>
        exists|k: int| 0 <= k < shown.len() && #[trigger] shown[k].id == n
}

/// The messages of a replica, by id.
pub struct MessageStore {
    entries: Vec<Message>,
}

impl View for MessageStore {
    type V = Seq<([u8; 32], MessageView)>;

    closed spec fn view(&self) -> Seq<([u8; 32], MessageView)> {
        Seq::new(self.entries@.len(), |i: int| (self.entries@[i].id.0, self.entries@[i]@))
    }
}

impl MessageStore {
    /// Whether the store is well formed: no id is stored twice.
    pub closed spec fn wf(&self) -> bool {
        keys_distinct(self@)
    }

    /// No message.
    pub fn new() -> (r: Self)
        ensures
            r.wf(),
            r@.len() == 0,
    {
        let r = MessageStore { entries: Vec::new() };
        assert(r@ =~= Seq::<([u8; 32], MessageView)>::empty());
        r
    }

    fn find(&self, id: &[u8; 32]) -> (r: Option<usize>)
        ensures
            match r {
                Some(i) => i < self@.len() && self@[i as int].0 == *id
                    && forall|j: int| 0 <= j < i ==> self@[j].0 != *id,
                None => forall|j: int| 0 <= j < self@.len() ==> self@[j].0 != *id,
            },
    {
        let mut i: usize = 0;
        while i < self.entries.len()
            invariant
                i <= self.entries@.len(),
                forall|j: int| 0 <= j < i ==> self@[j].0 != *id,
            decreases self.entries@.len() - i,
        {
            if hash_eq(&self.entries[i].id.0, id) {
                return Some(i);
            }
            i = i + 1;
        }
        None
    }

    /// The message with an id.
    pub fn get_message(&self, id: &MessageId) -> (r: Option<Message>)
        ensures
            match r {
                Some(m) => assoc_get(self@, id.0) == Some(m@) && m.id == *id,
                None => assoc_get(self@, id.0) is None,
            },
    {
        match self.find(&id.0) {
            Some(i) => {
                proof { lemma_assoc_found(self@, i as int, id.0); }
                Some(self.entries[i].duplicate())
            },
            None => {
                proof { lemma_assoc_absent(self@, id.0); }
                None
            },
        }
    }

    /// Stores a message under its id, replacing the one there in place or
    /// adding it at the end.
    pub fn store_message(&mut self, m: Message)
        requires
            old(self).wf(),
        ensures
            final(self).wf(),
            forall|n: [u8; 32]| assoc_get(final(self)@, n) == (if n == m.id.0 { Some(m@) } else { assoc_get(old(self)@, n) }),
            assoc_has(old(self)@, m.id.0) ==> exists|i: int| 0 <= i < old(self)@.len() && old(self)@[i].0 == m.id.0
                && final(self)@ == old(self)@.update(i, (m.id.0, m@)),
            !assoc_has(old(self)@, m.id.0) ==> final(self)@ == old(self)@.push((m.id.0, m@)),
    {
        let ghost before = self@;
        let ghost mv = m@;
        match self.find(&m.id.0) {
            Some(i) => {
                self.entries.set(i, m);
                proof {
                    assert(self@ =~= before.update(i as int, (before[i as int].0, mv)));
                    assert(self@ == before.update(i as int, (mv.id, mv)));
                    assert forall|n: [u8; 32]| assoc_get(self@, n) == (if n == mv.id { Some(mv) } else { assoc_get(before, n) }) by {
                        lemma_assoc_update(before, i as int, mv, n);
                    }
                }
            },
            None => {
                self.entries.push(m);
                proof {
                    assert(self@ =~= before.push((mv.id, mv)));
                    assert(!assoc_has(before, mv.id));
                    assert forall|n: [u8; 32]| assoc_get(self@, n) == (if n == mv.id { Some(mv) } else { assoc_get(before, n) }) by {
                        lemma_assoc_push(before, mv.id, mv, n);
                    }
                }
            },
        }
    }

    /// Removes the message with an id.
    pub fn delete_message(&mut self, id: &MessageId)
        requires
            old(self).wf(),
        ensures
            final(self).wf(),
            final(self)@ == assoc_remove_all(old(self)@, id.0),
            forall|n: [u8; 32]| assoc_get(final(self)@, n) == (if n == id.0 { None } else { assoc_get(old(self)@, n) }),
    {
        let ghost before = self@;
        let mut kept: Vec<Message> = Vec::new();
        let mut i: usize = 0;
        while i < self.entries.len()
            invariant
                i <= self.entries@.len(),
                before == self@,
                Seq::new(kept@.len(), |j: int| (kept@[j].id.0, kept@[j]@)) == assoc_remove_all(before.take(i as int), id.0),
            decreases self.entries@.len() - i,
        {
            proof {
                assert(before.take(i as int + 1).drop_last() =~= before.take(i as int));
            }
            if !hash_eq(&self.entries[i].id.0, &id.0) {
                let ghost kv = Seq::new(kept@.len(), |j: int| (kept@[j].id.0, kept@[j]@));
                kept.push(self.entries[i].duplicate());
                proof {
                    assert(Seq::new(kept@.len(), |j: int| (kept@[j].id.0, kept@[j]@)) =~= kv.push(before[i as int]));
                }
            }
            i = i + 1;
        }
        proof { assert(before.take(before.len() as int) =~= before); }
        self.entries = kept;
        proof {
            lemma_remove_all_distinct(before, id.0);
            assert forall|n: [u8; 32]| assoc_get(self@, n) == (if n == id.0 { None } else { assoc_get(before, n) }) by {
                lemma_assoc_remove_all(before, id.0, n);
            }
        }
    }

    /// The messages that are not deleted, in the order they were first
    /// stored: each such message once.
    pub fn get_all_messages(&self) -> (r: Vec<Message>)
        ensures
            Seq::new(r@.len(), |i: int| r@[i]@) == undeleted(self@.map_values(|e: ([u8; 32], MessageView)| e.1)),
            self.wf() ==> lists_each_once(self@, Seq::new(r@.len(), |i: int| r@[i]@)),
    {
        let ghost all = self@.map_values(|e: ([u8; 32], MessageView)| e.1);
        let mut r: Vec<Message> = Vec::new();
        let ghost mut idx: Seq<int> = Seq::empty();
        let mut i: usize = 0;
        while i < self.entries.len()
            invariant
                i <= self.entries@.len(),
                all == self@.map_values(|e: ([u8; 32], MessageView)| e.1),
                Seq::new(r@.len(), |j: int| r@[j]@) == undeleted(all.take(i as int)),
                idx.len() == r@.len(),
                forall|k: int| 0 <= k < r@.len() ==> 0 <= #[trigger] idx[k] < i
                    && r@[k]@ == self@[idx[k]].1 && !self@[idx[k]].1.is_deleted,
                forall|a: int, b: int| 0 <= a < b < r@.len() ==> idx[a] < idx[b],
                forall|j: int| 0 <= j < i && !(#[trigger] self@[j]).1.is_deleted
                    ==> exists|k: int| 0 <= k < r@.len() && idx[k] == j,
            decreases self.entries@.len() - i,
        {
            proof {
                assert(all.take(i as int + 1).drop_last() =~= all.take(i as int));
                assert(all.take(i as int + 1).last() == self.entries@[i as int]@);
            }
            let ghost rv = Seq::new(r@.len(), |j: int| r@[j]@);
            if !self.entries[i].is_deleted {
                let ghost idx0 = idx;
                r.push(self.entries[i].duplicate());
                proof {
                    assert(Seq::new(r@.len(), |j: int| r@[j]@) =~= rv.push(self.entries@[i as int]@));
                    idx = idx.push(i as int);
                    assert forall|j: int| 0 <= j < i + 1 && !(#[trigger] self@[j]).1.is_deleted
                        implies exists|k: int| 0 <= k < r@.len() && idx[k] == j by {
                        if j < i {
                            let k = choose|k: int| 0 <= k < idx0.len() && idx0[k] == j;
                            assert(idx[k] == j);
                        } else {
                            assert(idx[idx.len() - 1] == j);
                        }
                    }
                }
            }
            i = i + 1;
        }
        proof {
            assert(all.take(self.entries@.len() as int) =~= all);
            let shown = Seq::new(r@.len(), |j: int| r@[j]@);
            if self.wf() {
                let s = self@;
                assert forall|k: int| 0 <= k < s.len() implies #[trigger] s[k].0 == s[k].1.id by {}
                assert forall|a: int, b: int| 0 <= a < b < shown.len() implies shown[a].id != shown[b].id by {
                    assert(idx[a] < idx[b]);
                    assert(s[idx[a]].0 == s[idx[a]].1.id);
                    assert(s[idx[b]].0 == s[idx[b]].1.id);
                }
                assert forall|k: int| 0 <= k < shown.len() implies
                    assoc_get(s, #[trigger] shown[k].id) == Some(shown[k]) && !shown[k].is_deleted by {
                    let j = idx[k];
                    assert(s[j].0 == shown[k].id);
                    assert forall|q: int| 0 <= q < j implies s[q].0 != s[j].0 by {}
                    lemma_assoc_found(s, j, shown[k].id);
                }
                assert forall|n: [u8; 32]| #[trigger] assoc_get(s, n) matches Some(m) && !m.is_deleted implies
                    exists|k: int| 0 <= k < shown.len() && #[trigger] shown[k].id == n by {
                    lemma_assoc_some(s, n);
                    let m = assoc_get(s, n)->0;
                    let j = choose|j: int| 0 <= j < s.len() && s[j].0 == n && #[trigger] s[j].1 == m;
                    assert(!s[j].1.is_deleted);
                    let k = choose|k: int| 0 <= k < r@.len() && idx[k] == j;
                    assert(shown[k].id == n);
                }
            }
        }
        r
    }

    /// Every message, deleted or not, in the order they were first stored.
    pub fn get_all_messages_including_deleted(&self) -> (r: Vec<Message>)
        ensures
            Seq::new(r@.len(), |i: int| r@[i]@) == self@.map_values(|e: ([u8; 32], MessageView)| e.1),
    {
        let mut r: Vec<Message> = Vec::new();
        let mut i: usize = 0;
        while i < self.entries.len()
            invariant
                i <= self.entries@.len(),
                r@.len() == i,
                forall|j: int| 0 <= j < i ==> #[trigger] r@[j]@ == self.entries@[j]@,
            decreases self.entries@.len() - i,
        {
            r.push(self.entries[i].duplicate());
            i = i + 1;
        }
        proof {
            assert(Seq::new(r@.len(), |i: int| r@[i]@) =~= self@.map_values(|e: ([u8; 32], MessageView)| e.1));
        }
        r
    }
}


/// The message that an operation is about, if any.
pub open spec fn message_target(o: OperationView) -> Option<[u8; 32]> {
    match o {
        OperationView::CreateMessage { msg_id, .. } => Some(msg_id),
        OperationView::EditMessage { msg_id, .. } => Some(msg_id),
        OperationView::DeleteMessage { msg_id, .. } => Some(msg_id),
        OperationView::Purge { msg_id, .. } => Some(msg_id),
        _ => None,
    }
}

/// The operations of the log about a message, in log order.
pub open spec fn ops_for_message(ops: Seq<([u8; 32], OpView)>, id: [u8; 32]) -> Seq<OpView>
    decreases ops.len(),
{
    if ops.len() == 0 {
        Seq::empty()
    } else if message_target(ops.last().1.operation) == Some(id) {
        ops_for_message(ops.drop_last(), id).push(ops.last().1)
    } else {
        ops_for_message(ops.drop_last(), id)
    }
}

/// The message shown for a resolved state, given the one shown before.
pub open spec fn materialize(old: Option<MessageView>, id: [u8; 32], st: ResolvedView) -> Option<MessageView> {
    match st {
        ResolvedView::NotCreated => None,
        ResolvedView::Created { body, created_at } =>
            Some(MessageView { id, content: body, created_at, is_deleted: false, is_purged: false }),
        ResolvedView::Edited { body, last_edited_at } =>
            Some(MessageView { id, content: body, created_at: last_edited_at, is_deleted: false, is_purged: false }),
        ResolvedView::Deleted { deleted_at } => match old {
            Some(m) => Some(MessageView { is_deleted: true, ..m }),
            None => Some(MessageView { id, content: Seq::empty(), created_at: deleted_at, is_deleted: true, is_purged: false }),
        },
        ResolvedView::Purged { .. } => None,
    }
}

/// The message shown after a local operation, given the one shown before.
pub open spec fn apply_local(old: Option<MessageView>, o: OperationView) -> Option<MessageView> {
    match o {
        OperationView::CreateMessage { msg_id, body, created_at, .. } =>
            Some(MessageView { id: msg_id, content: body, created_at, is_deleted: false, is_purged: false }),
        OperationView::EditMessage { body, .. } => match old {
            Some(m) => Some(MessageView { content: body, ..m }),
            None => None,
        },
        OperationView::DeleteMessage { .. } => match old {
            Some(m) => Some(MessageView { is_deleted: true, ..m }),
            None => None,
        },
        OperationView::Purge { .. } => None,
        _ => old,
    }
}

/// The first parent of an operation missing from the log, if any.
pub open spec fn first_missing_parent(ops: Seq<([u8; 32], OpView)>, parents: Seq<[u8; 32]>) -> Option<[u8; 32]>
    decreases parents.len(),
{
    if parents.len() == 0 {
        None
    } else if !assoc_has(ops, parents[0]) {
        Some(parents[0])
    } else {
        first_missing_parent(ops, parents.drop_first())
    }
}

/// Why an operation from another device was refused.
#[derive(Clone, Copy, Debug, PartialEq, Eq)]
pub enum SyncError {
    /// A parent of the operation is not in the log.
    MissingParentOperation([u8; 32]),
    /// The operation's Lamport time is more than 1000 ahead of the clock.
    LamportTooFarInFuture,
}

/// The text that an error reads as; a missing parent is named by the hex
/// of its hash.
pub open spec fn sync_error_text(e: SyncError) -> Seq<char> {
    match e {
        SyncError::MissingParentOperation(p) => "Sync error: Missing parent operation: "@ + crate::validation::hex_lower(p@),
        SyncError::LamportTooFarInFuture => "Sync error: Lamport timestamp too far in future"@,
    }
}

impl SyncError {
    /// The text of the error.
    pub fn message(&self) -> (r: String)
        ensures
            r@ == sync_error_text(*self),
    {
        match self {
            SyncError::MissingParentOperation(p) => String::from_str("Sync error: Missing parent operation: ")
                .concat(crate::validation::format_message_id(p).as_str()),
            SyncError::LamportTooFarInFuture => String::from_str("Sync error: Lamport timestamp too far in future"),
        }
    }
}

/// The mathematical form of a [`SyncManager`].
pub struct SyncView {
    pub log: EventLogView,
    pub messages: Seq<([u8; 32], MessageView)>,
    pub device_pubkey: [u8; 32],
    pub vault_key: [u8; 32],
}

/// The log after each of `ops` is added in turn.
pub open spec fn log_after_all(l: EventLogView, ops: Seq<OpView>) -> EventLogView
    decreases ops.len(),
{
    if ops.len() == 0 {
        l
    } else {
        log_after_add(log_after_all(l, ops.drop_last()), ops.last())
    }
}

/// A replica: its operation log and the messages it shows.
pub struct SyncManager {
    event_log: EventLog,
    messages: MessageStore,
    device_pubkey: [u8; 32],
    vault_key: [u8; 32],
}

impl View for SyncManager {
    type V = SyncView;

    closed spec fn view(&self) -> SyncView {
        SyncView {
            log: self.event_log@,
            messages: self.messages@,
            device_pubkey: self.device_pubkey,
            vault_key: self.vault_key,
        }
    }
}

/// The operation made by this replica: its id and time follow the clock,
/// and it follows the heads.
pub open spec fn local_op(s: SyncView, parents: Seq<[u8; 32]>, operation: OperationView, timestamp: i64) -> OpView {
    let next = crate::events::lamport_succ(s.log.lamport);
    OpView {
        id: OpId { device_pubkey: s.device_pubkey, counter: next },
        lamport: next,
        parents,
        operation,
        timestamp,
    }
}

/// Whether a replica's log after a local change is its log before with
/// the operation of this replica added: the operation follows the heads
/// (in some order, each once), takes the next Lamport time, is stamped
/// `now`, and has hash `h`. The log then has `h` among its heads in place
/// of the old ones, and its clock moves past the operation's time (see
/// `log_after_add`).
pub open spec fn logged_locally(before: SyncView, after: SyncView, o: OperationView, now: i64, h: [u8; 32]) -> bool {
    exists|ps: Seq<[u8; 32]>| #![trigger local_op(before, ps, o, now)]
        ps.to_set() == before.log.heads && ps.no_duplicates()
        && h == op_digest(local_op(before, ps, o, now))
        && after.log == log_after_add(before.log, local_op(before, ps, o, now))
}

/// The all-zero message id.
pub open spec fn zero_msg_id() -> [u8; 32] {
    crate::events::arr32(Seq::new(32, |i: int| 0u8))
}

impl SyncManager {
    /// Whether the replica is well formed.
    pub closed spec fn wf(&self) -> bool {
        &&& self.event_log.wf()
        &&& self.messages.wf()
    }

    /// A replica with an empty log and no message.
    pub fn new(device_pubkey: [u8; 32], vault_key: [u8; 32]) -> (r: Self)
        ensures
            r.wf(),
            r@.log.ops.len() == 0,
            r@.log.heads == Set::<[u8; 32]>::empty(),
            r@.log.lamport == 0,
            r@.messages.len() == 0,
            r@.device_pubkey == device_pubkey,
            r@.vault_key == vault_key,
    {
        SyncManager { event_log: EventLog::new(), messages: MessageStore::new(), device_pubkey, vault_key }
    }

    /// The operation log.
    pub fn event_log(&self) -> (r: &EventLog)
        ensures
            r@ == self@.log,
            self.wf() ==> r.wf(),
    {
        &self.event_log
    }

    /// The message with an id.
    pub fn get_message(&self, id: &MessageId) -> (r: Option<Message>)
        ensures
            match r {
                Some(m) => assoc_get(self@.messages, id.0) == Some(m@),
                None => assoc_get(self@.messages, id.0) is None,
            },
    {
        self.messages.get_message(id)
    }

    /// The messages that are not deleted, each once.
    pub fn get_all_messages(&self) -> (r: Vec<Message>)
        ensures
            Seq::new(r@.len(), |i: int| r@[i]@) == undeleted(self@.messages.map_values(|e: ([u8; 32], MessageView)| e.1)),
            self.wf() ==> lists_each_once(self@.messages, Seq::new(r@.len(), |i: int| r@[i]@)),
    {
        self.messages.get_all_messages()
    }

    /// Every message, deleted or not.
    pub fn get_all_messages_including_deleted(&self) -> (r: Vec<Message>)
        ensures
            Seq::new(r@.len(), |i: int| r@[i]@) == self@.messages.map_values(|e: ([u8; 32], MessageView)| e.1),
    {
        self.messages.get_all_messages_including_deleted()
    }

    /// Applies the effect of a local operation on the message it is about.
    fn apply_local_to_messages(&mut self, operation: &Operation)
        requires
            old(self).wf(),
        ensures
            final(self)@.log == old(self)@.log,
            final(self)@.device_pubkey == old(self)@.device_pubkey,
            final(self)@.vault_key == old(self)@.vault_key,
            final(self).wf(),
            forall|n: [u8; 32]| assoc_get(final(self)@.messages, n) == (match message_target(operation@) {
                Some(id) => if n == id { apply_local(assoc_get(old(self)@.messages, id), operation@) } else { assoc_get(old(self)@.messages, n) },
                None => assoc_get(old(self)@.messages, n),
            }),
    {
        match operation {
            Operation::CreateMessage { msg_id, body, created_at, .. } => {
                let m = Message { id: MessageId(*msg_id), content: copy_string(body), created_at: *created_at, is_deleted: false, is_purged: false };
                self.messages.store_message(m);
            },
            Operation::EditMessage { msg_id, body, .. } => {
                match self.messages.get_message(&MessageId(*msg_id)) {
                    Some(mut m) => {
                        m.content = copy_string(body);
                        self.messages.store_message(m);
                    },
                    None => {},
                }
            },
            Operation::DeleteMessage { msg_id, .. } => {
                match self.messages.get_message(&MessageId(*msg_id)) {
                    Some(mut m) => {
                        m.is_deleted = true;
                        self.messages.store_message(m);
                    },
                    None => {},
                }
            },
            Operation::Purge { msg_id, .. } => {
                self.messages.delete_message(&MessageId(*msg_id));
            },
            _ => {},
        }
    }

    /// Makes an operation of this replica at time `now`, adds it to the log
    /// and applies it to its message; returns its hash.
    pub fn add_operation_at(&mut self, operation: Operation, now: i64) -> (h: [u8; 32])
        requires
            old(self).wf(),
        ensures
            final(self).wf(),
            final(self)@.device_pubkey == old(self)@.device_pubkey,
            final(self)@.vault_key == old(self)@.vault_key,
            logged_locally(old(self)@, final(self)@, operation@, now, h),
            forall|n: [u8; 32]| assoc_get(final(self)@.messages, n) == (match message_target(operation@) {
                Some(id) => if n == id { apply_local(assoc_get(old(self)@.messages, id), operation@) } else { assoc_get(old(self)@.messages, n) },
                None => assoc_get(old(self)@.messages, n),
            }),
    {
        let next = self.event_log.current_lamport().saturating_add(1);
        let id = OpId::new(self.device_pubkey, next);
        let heads = self.event_log.get_heads();
        let parents = vstd::slice::slice_to_vec(heads.as_slice());
        let ghost ps = parents@;
        let ghost before = self@;
        self.apply_local_to_messages(&operation);
        let ghost ov = operation@;
        let op = Op::new(id, next, parents, operation, now);
        proof { assert(op@ == local_op(before, ps, ov, now)); }
        let h = self.event_log.add_operation(op);
        h
    }

    /// An attachment operation of this replica at time `now`, on top of the
    /// current heads, that names the all-zero message and no chunks,
    /// whatever it is asked to attach; it is not added to the log.
    pub fn create_attachment_operation_at(&self, msg_id: MessageId, filename: String, content: Vec<u8>, now: i64) -> (r: Op)
        requires
            self.wf(),
        ensures
            exists|ps: Seq<[u8; 32]>| ps.to_set() == self@.log.heads && ps.no_duplicates()
                && r@ == #[trigger] local_op(self@, ps, OperationView::Attach { msg_id: zero_msg_id(), attachment_cids: Seq::empty() }, now),
    {
        let zero = [0u8; 32];
        proof {
            crate::events::lemma_arr32(zero);
            assert(zero@ =~= Seq::new(32, |i: int| 0u8));
        }
        let operation = Operation::Attach { msg_id: zero, attachment_cids: Vec::new() };
        let next = self.event_log.current_lamport().saturating_add(1);
        let id = OpId::new(self.device_pubkey, next);
        let parents = vstd::slice::slice_to_vec(self.event_log.get_heads().as_slice());
        let ghost ov = operation@;
        let ghost ps = parents@;
        proof { assert(ov == (OperationView::Attach { msg_id: zero_msg_id(), attachment_cids: Seq::empty() })); }
        let op = Op::new(id, next, parents, operation, now);
        proof { assert(op@ == local_op(self@, ps, ov, now)); }
        op
    }

    /// An attachment operation of this replica made now; see
    /// [`Self::create_attachment_operation_at`].
    pub fn create_attachment_operation(&self, msg_id: MessageId, filename: String, content: Vec<u8>) -> (r: Op)
        requires
            self.wf(),
        ensures
            exists|ps: Seq<[u8; 32]>, now: i64| ps.to_set() == self@.log.heads && ps.no_duplicates()
                && r@ == #[trigger] local_op(self@, ps, OperationView::Attach { msg_id: zero_msg_id(), attachment_cids: Seq::empty() }, now),
    {
        let now = utc_now_ms();
        self.create_attachment_operation_at(msg_id, filename, content, now)
    }

    /// Makes an operation of this replica now (see [`Self::add_operation_at`]).
    pub fn add_operation(&mut self, operation: Operation) -> (h: [u8; 32])
        requires
            old(self).wf(),
        ensures
            final(self).wf(),
            final(self)@.device_pubkey == old(self)@.device_pubkey,
            final(self)@.vault_key == old(self)@.vault_key,
            exists|now: i64| #[trigger] logged_locally(old(self)@, final(self)@, operation@, now, h),
            forall|n: [u8; 32]| assoc_get(final(self)@.messages, n) == (match message_target(operation@) {
                Some(id) => if n == id { apply_local(assoc_get(old(self)@.messages, id), operation@) } else { assoc_get(old(self)@.messages, n) },
                None => assoc_get(old(self)@.messages, n),
            }),
    {
        let now = utc_now_ms();
        self.add_operation_at(operation, now)
    }
}


/// The message an operation is about.
fn target_of(operation: &Operation) -> (r: Option<[u8; 32]>)
    ensures
        r == message_target(operation@),
{
    match operation {
        Operation::CreateMessage { msg_id, .. } => Some(*msg_id),
        Operation::EditMessage { msg_id, .. } => Some(*msg_id),
        Operation::DeleteMessage { msg_id, .. } => Some(*msg_id),
        Operation::Purge { msg_id, .. } => Some(*msg_id),
        _ => None,
    }
}

impl SyncManager {
    /// The operations of the log about a message, in log order.
    pub fn get_operations_for_message(&self, msg_id: &[u8; 32]) -> (r: Vec<&Op>)
        ensures
            Seq::new(r@.len(), |i: int| r@[i]@) == ops_for_message(self@.log.ops, *msg_id),
    {
        let all = self.event_log.get_all_operations();
        let ghost ops = self@.log.ops;
        let mut r: Vec<&Op> = Vec::new();
        let mut i: usize = 0;
        while i < all.len()
            invariant
                i <= all@.len(),
                ops == self@.log.ops,
                all@.len() == ops.len(),
                forall|j: int| 0 <= j < all@.len() ==> #[trigger] all@[j]@ == ops[j].1,
                Seq::new(r@.len(), |j: int| r@[j]@) == ops_for_message(ops.take(i as int), *msg_id),
            decreases all@.len() - i,
        {
            let op = all[i];
            proof {
                assert(ops.take(i as int + 1).drop_last() =~= ops.take(i as int));
                assert(ops.take(i as int + 1).last().1 == op@);
            }
            let ghost rv = Seq::new(r@.len(), |j: int| r@[j]@);
            match target_of(&op.operation) {
                Some(t) => {
                    if hash_eq(&t, msg_id) {
                        r.push(op);
                        proof { assert(Seq::new(r@.len(), |j: int| r@[j]@) =~= rv.push(op@)); }
                    }
                },
                None => {},
            }
            i = i + 1;
        }
        proof { assert(ops.take(ops.len() as int) =~= ops); }
        r
    }

    /// Checks an operation from another device: its parents must be in the
    /// log, and its Lamport time at most 1000 ahead of the clock.
    pub fn verify_operation(&self, op: &Op) -> (r: Result<(), SyncError>)
        requires
            self.wf(),
        ensures
            match first_missing_parent(self@.log.ops, op@.parents) {
                Some(p) => r == Err::<(), SyncError>(SyncError::MissingParentOperation(p)),
                None => if op.lamport > self@.log.lamport + 1000 {
                    r == Err::<(), SyncError>(SyncError::LamportTooFarInFuture)
                } else {
                    r == Ok::<(), SyncError>(())
                },
            },
    {
        let mut i: usize = 0;
        proof { assert(op@.parents.skip(0) =~= op@.parents); }
        while i < op.parents.len()
            invariant
                self.wf(),
                i <= op.parents@.len(),
                first_missing_parent(self@.log.ops, op@.parents) == first_missing_parent(self@.log.ops, op@.parents.skip(i as int)),
            decreases op.parents@.len() - i,
        {
            proof {
                let rest = op@.parents.skip(i as int);
                assert(rest.drop_first() =~= op@.parents.skip(i as int + 1));
                assert(rest[0] == op.parents@[i as int]);
            }
            if self.event_log.get_operation(&op.parents[i]).is_none() {
                return Err(SyncError::MissingParentOperation(op.parents[i]));
            }
            i = i + 1;
        }
        proof { assert(op@.parents.skip(op.parents@.len() as int) =~= Seq::<[u8; 32]>::empty()); }
        if (op.lamport as u128) > (self.event_log.current_lamport() as u128) + 1000 {
            return Err(SyncError::LamportTooFarInFuture);
        }
        Ok(())
    }

    /// Shows a message as its resolved state says.
    fn update_message_materialized_view(&mut self, msg_id: &[u8; 32], state: ResolvedMessageState)
        requires
            old(self).wf(),
        ensures
            final(self)@.log == old(self)@.log,
            final(self)@.device_pubkey == old(self)@.device_pubkey,
            final(self)@.vault_key == old(self)@.vault_key,
            final(self).wf(),
            forall|n: [u8; 32]| assoc_get(final(self)@.messages, n) == (if n == *msg_id {
                materialize(assoc_get(old(self)@.messages, *msg_id), *msg_id, state@)
            } else {
                assoc_get(old(self)@.messages, n)
            }),
    {
        let id = MessageId(*msg_id);
        match state {
            ResolvedMessageState::NotCreated => {
                self.messages.delete_message(&id);
            },
            ResolvedMessageState::Created { body, created_at } => {
                self.messages.store_message(Message { id, content: body, created_at, is_deleted: false, is_purged: false });
            },
            ResolvedMessageState::Edited { body, last_edited_at } => {
                self.messages.store_message(Message { id, content: body, created_at: last_edited_at, is_deleted: false, is_purged: false });
            },
            ResolvedMessageState::Deleted { deleted_at } => {
                match self.messages.get_message(&id) {
                    Some(mut m) => {
                        m.is_deleted = true;
                        self.messages.store_message(m);
                    },
                    None => {
                        self.messages.store_message(Message { id, content: String::new(), created_at: deleted_at, is_deleted: true, is_purged: false });
                    },
                }
            },
            ResolvedMessageState::Purged { .. } => {
                self.messages.delete_message(&id);
            },
        }
    }

    /// Applies an operation from another device. An operation already in
    /// the log is accepted and changes nothing; one that fails
    /// [`Self::verify_operation`] is refused and changes nothing. Otherwise
    /// it is added to the log, and the message it is about is shown as the
    /// resolution of all of that message's operations.
    pub fn apply_operation(&mut self, op: Op) -> (r: Result<(), SyncError>)
        requires
            old(self).wf(),
        ensures
            final(self).wf(),
            final(self)@.device_pubkey == old(self)@.device_pubkey,
            final(self)@.vault_key == old(self)@.vault_key,
            assoc_has(old(self)@.log.ops, op_digest(op@)) ==> r is Ok && final(self)@ == old(self)@,
            !assoc_has(old(self)@.log.ops, op_digest(op@)) ==> match first_missing_parent(old(self)@.log.ops, op@.parents) {
                Some(p) => r == Err::<(), SyncError>(SyncError::MissingParentOperation(p)) && final(self)@ == old(self)@,
                None => if op.lamport > old(self)@.log.lamport + 1000 {
                    r == Err::<(), SyncError>(SyncError::LamportTooFarInFuture) && final(self)@ == old(self)@
                } else {
                    &&& r is Ok
                    &&& final(self)@.log == log_after_add(old(self)@.log, op@)
                    &&& forall|n: [u8; 32]| assoc_get(final(self)@.messages, n) == (match message_target(op@.operation) {
                        Some(id) => if n == id {
                            materialize(assoc_get(old(self)@.messages, id), id, resolve_ops(ops_for_message(final(self)@.log.ops, id)))
                        } else {
                            assoc_get(old(self)@.messages, n)
                        },
                        None => assoc_get(old(self)@.messages, n),
                    })
                },
            },
    {
        let h = op.hash();
        if self.event_log.get_operation(&h).is_some() {
            return Ok(());
        }
        match self.verify_operation(&op) {
            Err(e) => { return Err(e); },
            Ok(()) => {},
        }
        let target = target_of(&op.operation);
        self.event_log.add_operation(op);
        match target {
            Some(msg_id) => {
                let ops = self.get_operations_for_message(&msg_id);
                let state = crdt_resolve_message_conflicts(&ops);
                self.update_message_materialized_view(&msg_id, state);
            },
            None => {},
        }
        Ok(())
    }

    /// The operations to send to a replica whose heads are `since_heads`:
    /// those of the log that its heads do not reach, each once (all of them
    /// when it has no heads).
    pub fn get_operations_for_sync(&self, since_heads: &[[u8; 32]]) -> (r: Vec<&Op>)
        requires
            self.wf(),
        ensures
            forall|k: int| 0 <= k < r@.len() ==> op_since(self@.log.ops, since_heads@.to_set(), #[trigger] r@[k]@),
            forall|i: int| 0 <= i < self@.log.ops.len() && !reached_from(self@.log.ops, since_heads@.to_set(), #[trigger] self@.log.ops[i].0)
                ==> exists|k: int| 0 <= k < r@.len() && r@[k]@ == self@.log.ops[i].1,
            forall|a: int, b: int| 0 <= a < b < r@.len() ==> r@[a]@ != r@[b]@,
    {
        self.event_log.get_operations_since(since_heads)
    }

    /// The heads of the log, each once.
    pub fn get_sync_heads(&self) -> (r: Vec<[u8; 32]>)
        requires
            self.wf(),
        ensures
            r@.to_set() == self@.log.heads,
            r@.no_duplicates(),
    {
        let heads = self.event_log.get_heads();
        vstd::slice::slice_to_vec(heads.as_slice())
    }

    /// Whether the log holds every operation of a device up to a counter
    /// (see [`EventLog::has_operations_up_to`]).
    pub fn has_operations_up_to(&self, up_to: &OpId) -> (r: bool)
        ensures
            r == (crate::events::device_known(self@.log.ops, up_to.device_pubkey)
                && forall|c: u64| 1 <= c <= up_to.counter ==> #[trigger] crate::events::device_map(self@.log.ops, up_to.device_pubkey).contains_key(c)),
    {
        self.event_log.has_operations_up_to(up_to)
    }
}


impl SyncManager {
    /// Creates a message with a given id at time `now`, with the chunks of
    /// its attachments, recording the creation as an operation of this
    /// replica; it is shown at once.
    pub fn create_message_at(&mut self, msg_id: MessageId, body: String, attachments: Vec<[u8; 32]>, now: i64)
        requires
            old(self).wf(),
        ensures
            final(self).wf(),
            exists|h: [u8; 32]| #[trigger] logged_locally(old(self)@, final(self)@, OperationView::CreateMessage {
                msg_id: msg_id.0, feed_id: "default"@, body: body@, attachments: attachments@, created_at: now,
            }, now, h),
            assoc_get(final(self)@.messages, msg_id.0) == Some(MessageView {
                id: msg_id.0, content: body@, created_at: now, is_deleted: false, is_purged: false,
            }),
            forall|n: [u8; 32]| n != msg_id.0 ==> assoc_get(final(self)@.messages, n) == assoc_get(old(self)@.messages, n),
    {
        let operation = Operation::CreateMessage {
            msg_id: msg_id.0,
            feed_id: String::from_str("default"),
            body,
            attachments,
            created_at: now,
        };
        let h = self.add_operation_at(operation, now);
    }

    /// Creates a message with a new random id, now; returns the id.
    pub fn create_message(&mut self, body: String, attachments: Vec<[u8; 32]>) -> (id: MessageId)
        requires
            old(self).wf(),
        ensures
            final(self).wf(),
            exists|now: i64, h: [u8; 32]| #![trigger logged_locally(old(self)@, final(self)@, OperationView::CreateMessage {
                msg_id: id.0, feed_id: "default"@, body: body@, attachments: attachments@, created_at: now,
            }, now, h)]
                crate::clock::EARLIEST_TIME_MS <= now <= crate::clock::LATEST_TIME_MS
                && logged_locally(old(self)@, final(self)@, OperationView::CreateMessage {
                    msg_id: id.0, feed_id: "default"@, body: body@, attachments: attachments@, created_at: now,
                }, now, h)
                && assoc_get(final(self)@.messages, id.0) == Some(MessageView {
                    id: id.0, content: body@, created_at: now, is_deleted: false, is_purged: false,
                }),
            assoc_get(final(self)@.messages, id.0) matches Some(m) && m.content == body@ && !m.is_deleted,
            forall|n: [u8; 32]| n != id.0 ==> assoc_get(final(self)@.messages, n) == assoc_get(old(self)@.messages, n),
    {
        let id = MessageId::new();
        let now = utc_now_ms();
        self.create_message_at(id, body, attachments, now);
        id
    }

    /// Replaces the text of a message at time `now`, recording the edit as
    /// an operation of this replica; a message not shown stays absent.
    pub fn edit_message_at(&mut self, msg_id: MessageId, new_body: String, now: i64)
        requires
            old(self).wf(),
        ensures
            final(self).wf(),
            exists|h: [u8; 32]| #[trigger] logged_locally(old(self)@, final(self)@, OperationView::EditMessage { msg_id: msg_id.0, body: new_body@, edited_at: now }, now, h),
            assoc_get(final(self)@.messages, msg_id.0) == (match assoc_get(old(self)@.messages, msg_id.0) {
                Some(m) => Some(MessageView { content: new_body@, ..m }),
                None => None,
            }),
            forall|n: [u8; 32]| n != msg_id.0 ==> assoc_get(final(self)@.messages, n) == assoc_get(old(self)@.messages, n),
    {
        let operation = Operation::EditMessage { msg_id: msg_id.0, body: new_body, edited_at: now };
        self.add_operation_at(operation, now);
    }

    /// Replaces the text of a message now (see [`Self::edit_message_at`]).
    pub fn edit_message(&mut self, msg_id: MessageId, new_body: String)
        requires
            old(self).wf(),
        ensures
            final(self).wf(),
            exists|now: i64, h: [u8; 32]| #[trigger] logged_locally(old(self)@, final(self)@, OperationView::EditMessage { msg_id: msg_id.0, body: new_body@, edited_at: now }, now, h),
            assoc_get(final(self)@.messages, msg_id.0) == (match assoc_get(old(self)@.messages, msg_id.0) {
                Some(m) => Some(MessageView { content: new_body@, ..m }),
                None => None,
            }),
            forall|n: [u8; 32]| n != msg_id.0 ==> assoc_get(final(self)@.messages, n) == assoc_get(old(self)@.messages, n),
    {
        let now = utc_now_ms();
        self.edit_message_at(msg_id, new_body, now);
    }

    /// Deletes a message at time `now`, recording the deletion as an
    /// operation of this replica; it stays, marked deleted.
    pub fn delete_message_at(&mut self, msg_id: MessageId, now: i64)
        requires
            old(self).wf(),
        ensures
            final(self).wf(),
            exists|h: [u8; 32]| #[trigger] logged_locally(old(self)@, final(self)@, OperationView::DeleteMessage { msg_id: msg_id.0, reason: None, deleted_at: now }, now, h),
            assoc_get(final(self)@.messages, msg_id.0) == (match assoc_get(old(self)@.messages, msg_id.0) {
                Some(m) => Some(MessageView { is_deleted: true, ..m }),
                None => None,
            }),
            forall|n: [u8; 32]| n != msg_id.0 ==> assoc_get(final(self)@.messages, n) == assoc_get(old(self)@.messages, n),
    {
        let operation = Operation::DeleteMessage { msg_id: msg_id.0, reason: None, deleted_at: now };
        self.add_operation_at(operation, now);
    }

    /// Deletes a message now (see [`Self::delete_message_at`]).
    pub fn delete_message(&mut self, msg_id: MessageId)
        requires
            old(self).wf(),
        ensures
            final(self).wf(),
            exists|now: i64, h: [u8; 32]| #[trigger] logged_locally(old(self)@, final(self)@, OperationView::DeleteMessage { msg_id: msg_id.0, reason: None, deleted_at: now }, now, h),
            assoc_get(final(self)@.messages, msg_id.0) == (match assoc_get(old(self)@.messages, msg_id.0) {
                Some(m) => Some(MessageView { is_deleted: true, ..m }),
                None => None,
            }),
            forall|n: [u8; 32]| n != msg_id.0 ==> assoc_get(final(self)@.messages, n) == assoc_get(old(self)@.messages, n),
    {
        let now = utc_now_ms();
        self.delete_message_at(msg_id, now);
    }

    /// Purges a message at time `now`, recording the purge as an operation
    /// of this replica: it is no longer shown.
    pub fn purge_message_at(&mut self, msg_id: MessageId, now: i64)
        requires
            old(self).wf(),
        ensures
            final(self).wf(),
            exists|h: [u8; 32]| #[trigger] logged_locally(old(self)@, final(self)@, OperationView::Purge { msg_id: msg_id.0, timestamp: now }, now, h),
            assoc_get(final(self)@.messages, msg_id.0) is None,
            forall|n: [u8; 32]| n != msg_id.0 ==> assoc_get(final(self)@.messages, n) == assoc_get(old(self)@.messages, n),
    {
        let operation = Operation::Purge { msg_id: msg_id.0, timestamp: now };
        self.add_operation_at(operation, now);
    }

    /// Purges a message now (see [`Self::purge_message_at`]).
    pub fn purge_message(&mut self, msg_id: MessageId)
        requires
            old(self).wf(),
        ensures
            final(self).wf(),
            exists|now: i64, h: [u8; 32]| #[trigger] logged_locally(old(self)@, final(self)@, OperationView::Purge { msg_id: msg_id.0, timestamp: now }, now, h),
            assoc_get(final(self)@.messages, msg_id.0) is None,
            forall|n: [u8; 32]| n != msg_id.0 ==> assoc_get(final(self)@.messages, n) == assoc_get(old(self)@.messages, n),
    {
        let now = utc_now_ms();
        self.purge_message_at(msg_id, now);
    }

    /// Rebuilds the log from stored operations, each added in turn (an
    /// operation already held changes nothing); the messages shown are
    /// left as they are.
    pub fn initialize(&mut self, ops: Vec<Op>)
        requires
            old(self).wf(),
        ensures
            final(self).wf(),
            final(self)@.log == log_after_all(old(self)@.log, Seq::new(ops@.len(), |i: int| ops@[i]@)),
            final(self)@.messages == old(self)@.messages,
            final(self)@.device_pubkey == old(self)@.device_pubkey,
            final(self)@.vault_key == old(self)@.vault_key,
    {
        let ghost vs = Seq::new(ops@.len(), |i: int| ops@[i]@);
        let total = ops.len();
        proof { assert(vs.len() == total); }
        let mut ops = ops;
        let mut rest: Vec<Op> = Vec::new();
        while ops.len() > 0
            invariant
                vs.len() <= usize::MAX,
                Seq::new(ops@.len(), |i: int| ops@[i]@) + Seq::new(rest@.len(), |i: int| rest@[rest@.len() - 1 - i]@) == vs,
            decreases ops@.len(),
        {
            let ghost before_ops = ops@;
            let ghost before_rest = rest@;
            let op = ops.pop().unwrap();
            rest.push(op);
            proof {
                assert(Seq::new(ops@.len(), |i: int| ops@[i]@) + Seq::new(rest@.len(), |i: int| rest@[rest@.len() - 1 - i]@)
                    =~= Seq::new(before_ops.len(), |i: int| before_ops[i]@) + Seq::new(before_rest.len(), |i: int| before_rest[before_rest.len() - 1 - i]@));
            }
        }
        proof {
            assert(Seq::new(rest@.len(), |i: int| rest@[rest@.len() - 1 - i]@) =~= vs);
        }
        let ghost start = self@.log;
        let mut done: usize = 0;
        while rest.len() > 0
            invariant
                self.wf(),
                vs.len() <= usize::MAX,
                done + rest@.len() == vs.len(),
                forall|i: int| 0 <= i < rest@.len() ==> #[trigger] rest@[i]@ == vs[vs.len() - 1 - i],
                self@.log == log_after_all(start, vs.take(done as int)),
                self@.messages == old(self)@.messages,
                self@.device_pubkey == old(self)@.device_pubkey,
                self@.vault_key == old(self)@.vault_key,
            decreases rest@.len(),
        {
            let ghost n = rest@.len();
            let op = rest.pop().unwrap();
            proof {
                assert(op@ == vs[done as int]);
                assert(vs.take(done + 1).drop_last() =~= vs.take(done as int));
                assert(vs.take(done + 1).last() == vs[done as int]);
            }
            let _ = self.event_log.add_operation(op);
            done = done + 1;
        }
        proof { assert(vs.take(vs.len() as int) =~= vs); }
    }

    /// Every operation in the log, to send to peers.
    pub fn get_pending_operations(&self) -> (r: Vec<&Op>)
        ensures
            r@.len() == self@.log.ops.len(),
            forall|i: int| 0 <= i < r@.len() ==> #[trigger] r@[i]@ == self@.log.ops[i].1,
    {
        self.event_log.get_all_operations()
    }
}

/// Once an operation has been applied, applying it again is accepted and
/// changes nothing: its hash is in the log.
pub proof fn lemma_applied_operation_is_logged(l: EventLogView, op: OpView)
    ensures
        assoc_has(log_after_add(l, op).ops, op_digest(op)),
{
    if !assoc_has(l.ops, op_digest(op)) {
        let ops = log_after_add(l, op).ops;
        assert(ops[ops.len() - 1].0 == op_digest(op));
    }
}

/// Once the log of a replica holds a purge of a message, applying
/// operations shows no such message, whatever else was done to it: the
/// message that an applied operation leaves is the materialized resolution
/// of the message's operations, and a purge resolves to nothing shown.
pub proof fn lemma_purged_message_not_shown(log: EventLogView, shown: Option<MessageView>, id: [u8; 32])
    requires
        exists|i: int| 0 <= i < ops_for_message(log.ops, id).len() && is_purge(#[trigger] ops_for_message(log.ops, id)[i]),
    ensures
        materialize(shown, id, resolve_ops(ops_for_message(log.ops, id))) is None,
{
    lemma_purge_overrides_all(ops_for_message(log.ops, id));
}

/// When a message's operations are a creation and edits with distinct
/// ordering keys, no deletion or purge, the message shown after they are
/// applied holds the text of the edit that comes last in the order of
/// operations (Lamport time, then device key).
pub proof fn lemma_last_edit_shown(log: EventLogView, shown: Option<MessageView>, id: [u8; 32], e: OpView)
    requires
        distinct_keys(ops_for_message(log.ops, id)),
        forall|i: int| 0 <= i < ops_for_message(log.ops, id).len() ==>
            !is_purge(#[trigger] ops_for_message(log.ops, id)[i]) && !is_delete(ops_for_message(log.ops, id)[i]),
        ops_for_message(log.ops, id).contains(e),
        e.operation matches OperationView::EditMessage { .. },
        forall|i: int| 0 <= i < ops_for_message(log.ops, id).len() && is_edit(#[trigger] ops_for_message(log.ops, id)[i])
            && ops_for_message(log.ops, id)[i] != e ==> op_before(ops_for_message(log.ops, id)[i], e),
    ensures
        e.operation matches OperationView::EditMessage { body, edited_at, .. } &&
            materialize(shown, id, resolve_ops(ops_for_message(log.ops, id)))
                == Some(MessageView { id, content: body, created_at: edited_at, is_deleted: false, is_purged: false }),
{
    lemma_last_write_wins(ops_for_message(log.ops, id), e);
}

/// When all of a message's operations are creations with distinct ordering
/// keys, the message shown after they are applied holds the text and the
/// creation time of the creation that comes first in the order of
/// operations (Lamport time, then device key), whatever was shown before.
pub proof fn lemma_first_creation_shown(log: EventLogView, shown: Option<MessageView>, id: [u8; 32], c: OpView)
    requires
        distinct_keys(ops_for_message(log.ops, id)),
        forall|i: int| 0 <= i < ops_for_message(log.ops, id).len()
            ==> (#[trigger] ops_for_message(log.ops, id)[i]).operation is CreateMessage,
        ops_for_message(log.ops, id).contains(c),
        forall|i: int| 0 <= i < ops_for_message(log.ops, id).len() && ops_for_message(log.ops, id)[i] != c
            ==> op_before(c, #[trigger] ops_for_message(log.ops, id)[i]),
    ensures
        c.operation matches OperationView::CreateMessage { body, created_at, .. } &&
            materialize(shown, id, resolve_ops(ops_for_message(log.ops, id)))
                == Some(MessageView { id, created_at, content: body, is_purged: false, is_deleted: false }),
{
    lemma_first_creation_wins(ops_for_message(log.ops, id), c);
}

/// A message whose only operation in the log is its creation is shown with
/// the creation's text and creation time, whatever was shown before: so a
/// creation from another device, applied alone, shows the message as it
/// was created there.
pub proof fn lemma_single_creation_shown(log: EventLogView, shown: Option<MessageView>, id: [u8; 32], c: OpView)
    requires
        ops_for_message(log.ops, id) == seq![c],
        c.operation is CreateMessage,
    ensures
        c.operation matches OperationView::CreateMessage { body, created_at, .. } &&
            materialize(shown, id, resolve_ops(ops_for_message(log.ops, id)))
                == Some(MessageView { id, created_at, content: body, is_purged: false, is_deleted: false }),
{
    let ops = ops_for_message(log.ops, id);
    assert(ops[0] == c);
    assert(ops.contains(c));
    lemma_first_creation_shown(log, shown, id, c);
}

} // verus!
