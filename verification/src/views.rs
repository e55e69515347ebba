//! Materialized views of the operation log, as the storage keeps them: a
//! table of messages, the set of (message, chunk) attachment pairs, and a
//! reference count per chunk, dropped when it reaches zero (the chunk's
//! file is then deleted by the caller).

use vstd::prelude::*;
use crate::assoc::{assoc_get, lemma_assoc_absent, lemma_assoc_found, lemma_assoc_push, lemma_assoc_update};
use crate::events::{copy_string, hash_eq, Op, OpView, Operation, OperationView};

verus! {

/// A row of the message table.
#[derive(Debug)]
pub struct Message {
    pub msg_id: [u8; 32],
    pub feed_id: String,
    pub body: String,
    /// Unix milliseconds.
    pub created_at: i64,
    pub edited_at: Option<i64>,
    pub deleted_at: Option<i64>,
    /// Key of the device that created the message.
    pub author_device: [u8; 32],
    pub is_purged: bool,
}

/// The mathematical form of a [`Message`] row.
pub struct MessageView {
    pub msg_id: [u8; 32],
    pub feed_id: Seq<char>,
    pub body: Seq<char>,
    pub created_at: i64,
    pub edited_at: Option<i64>,
    pub deleted_at: Option<i64>,
    pub author_device: [u8; 32],
    pub is_purged: bool,
}

impl View for Message {
    type V = MessageView;

    open spec fn view(&self) -> MessageView {
        MessageView {
            msg_id: self.msg_id,
            feed_id: self.feed_id@,
            body: self.body@,
            created_at: self.created_at,
            edited_at: self.edited_at,
            deleted_at: self.deleted_at,
            author_device: self.author_device,
            is_purged: self.is_purged,
        }
    }
}

/// The mathematical form of [`MaterializedViews`].
pub struct MaterializedViewsView {
    /// Message rows by id.
    pub messages: Seq<([u8; 32], MessageView)>,
    /// The (message, chunk) pairs.
    pub attachments: Set<([u8; 32], [u8; 32])>,
    /// Reference counts by chunk id.
    pub chunk_refs: Seq<([u8; 32], u32)>,
}

/// The tables derived from the operation log.
pub struct MaterializedViews {
    messages: Vec<Message>,
    attachments: Vec<([u8; 32], [u8; 32])>,
    chunk_refs: Vec<([u8; 32], u32)>,
}

impl View for MaterializedViews {
    type V = MaterializedViewsView;

    closed spec fn view(&self) -> MaterializedViewsView {
        MaterializedViewsView {
            messages: Seq::new(self.messages@.len(), |i: int| (self.messages@[i].msg_id, self.messages@[i]@)),
            attachments: self.attachments@.to_set(),
            chunk_refs: self.chunk_refs@,
        }
    }
}

/// No chunk has two counts.
pub open spec fn distinct_keys(s: Seq<([u8; 32], u32)>) -> bool {
    forall|i: int, j: int| 0 <= i < s.len() && 0 <= j < s.len() && i != j ==> s[i].0 != s[j].0
}

/// How often `c` occurs in `s`.
pub open spec fn occurrences(s: Seq<[u8; 32]>, c: [u8; 32]) -> nat
    decreases s.len(),
{
    if s.len() == 0 {
        0
    } else {
        occurrences(s.drop_last(), c) + if s.last() == c { 1nat } else { 0nat }
    }
}

/// The count of a chunk after `k` increments.
pub open spec fn count_after_incs(o: Option<u32>, k: nat) -> Option<u32> {
    if k == 0 {
        o
    } else {
        match o {
            Some(n) => Some((n + k) as u32),
            None => Some(k as u32),
        }
    }
}

/// The count of a chunk after `k` decrements: a positive count goes down,
/// and the entry is dropped when it reaches zero; a zero count stays.
pub open spec fn count_after_decs(o: Option<u32>, k: nat) -> Option<u32> {
    match o {
        Some(n) => if n == 0 {
            Some(0)
        } else if k >= n {
            None
        } else {
            Some((n - k) as u32)
        },
        None => None,
    }
}

/// Whether `k` decrements take the count of a chunk to zero.
pub open spec fn released_by(o: Option<u32>, k: nat) -> bool {
    o matches Some(n) && 1 <= n <= k
}

/// The count of a chunk given by a stored row: the stored number, cut to
/// 32 bits.
pub open spec fn loaded_count(n: i64) -> u32 {
    n as u32
}

/// The count the last row for `k` gives, if any.
pub open spec fn last_row(rows: Seq<([u8; 32], i64)>, k: [u8; 32]) -> Option<i64>
    decreases rows.len(),
{
    if rows.len() == 0 {
        None
    } else if rows.last().0 == k {
        Some(rows.last().1)
    } else {
        last_row(rows.drop_last(), k)
    }
}

/// The row of message `m` after an operation is applied to the table: a
/// creation writes a fresh row (in place of any), an edit, a deletion or a
/// purge changes an existing row.
pub open spec fn message_after(row: Option<MessageView>, op: OpView, m: [u8; 32]) -> Option<MessageView> {
    match op.operation {
        OperationView::CreateMessage { msg_id, feed_id, body, attachments, created_at } => if m == msg_id {
            Some(MessageView {
                msg_id,
                feed_id,
                body,
                created_at,
                edited_at: None,
                deleted_at: None,
                author_device: op.id.device_pubkey,
                is_purged: false,
            })
        } else {
            row
        },
        OperationView::EditMessage { msg_id, body, edited_at } => match row {
            Some(r) if m == msg_id => Some(MessageView { body, edited_at: Some(edited_at), ..r }),
            _ => row,
        },
        OperationView::DeleteMessage { msg_id, reason, deleted_at } => match row {
            Some(r) if m == msg_id => Some(MessageView { deleted_at: Some(deleted_at), ..r }),
            _ => row,
        },
        OperationView::Purge { msg_id, timestamp } => match row {
            Some(r) if m == msg_id => Some(MessageView { is_purged: true, ..r }),
            _ => row,
        },
        _ => row,
    }
}

/// Whether pair `p` is one of message `m` (with chunk `only`, when given).
pub open spec fn pair_dropped(p: ([u8; 32], [u8; 32]), m: [u8; 32], only: Option<[u8; 32]>) -> bool {
    p.0 == m && (only matches Some(c) ==> p.1 == c)
}

/// The pairs of message `m` with each of `cs`.
pub open spec fn pairs_of(m: [u8; 32], cs: Seq<[u8; 32]>) -> Set<([u8; 32], [u8; 32])> {
    Set::new(|p: ([u8; 32], [u8; 32])| p.0 == m && cs.contains(p.1))
}

/// The attachment pairs after an operation: creating and attaching add
/// pairs, detaching removes them, purging removes all of the message's.
pub open spec fn attachments_after(a: Set<([u8; 32], [u8; 32])>, op: OperationView) -> Set<([u8; 32], [u8; 32])> {
    match op {
        OperationView::CreateMessage { msg_id, feed_id, body, attachments, created_at } => a.union(pairs_of(msg_id, attachments)),
        OperationView::Attach { msg_id, attachment_cids } => a.union(pairs_of(msg_id, attachment_cids)),
        OperationView::Detach { msg_id, attachment_cids } => a.difference(pairs_of(msg_id, attachment_cids)),
        OperationView::Purge { msg_id, timestamp } => Set::new(|p: ([u8; 32], [u8; 32])| a.contains(p) && p.0 != msg_id),
        _ => a,
    }
}

/// The count of chunk `c` after an operation: each chunk named by a
/// creation or an attachment gains a reference per mention, each named by a
/// detachment loses one, and a purge drops one from each chunk attached to
/// the message.
pub open spec fn ref_after(refs: Seq<([u8; 32], u32)>, a: Set<([u8; 32], [u8; 32])>, op: OperationView, c: [u8; 32]) -> Option<u32> {
    match op {
        OperationView::CreateMessage { msg_id, feed_id, body, attachments, created_at } =>
            count_after_incs(assoc_get(refs, c), occurrences(attachments, c)),
        OperationView::Attach { msg_id, attachment_cids } => count_after_incs(assoc_get(refs, c), occurrences(attachment_cids, c)),
        OperationView::Detach { msg_id, attachment_cids } => count_after_decs(assoc_get(refs, c), occurrences(attachment_cids, c)),
        OperationView::Purge { msg_id, timestamp } => if a.contains((msg_id, c)) {
            count_after_decs(assoc_get(refs, c), 1)
        } else {
            assoc_get(refs, c)
        },
        _ => assoc_get(refs, c),
    }
}

/// Whether an operation takes the count of chunk `c` to zero.
pub open spec fn released_after(refs: Seq<([u8; 32], u32)>, a: Set<([u8; 32], [u8; 32])>, op: OperationView, c: [u8; 32]) -> bool {
    match op {
        OperationView::Detach { msg_id, attachment_cids } => released_by(assoc_get(refs, c), occurrences(attachment_cids, c)),
        OperationView::Purge { msg_id, timestamp } => a.contains((msg_id, c)) && released_by(assoc_get(refs, c), 1),
        _ => false,
    }
}

/// The counts stay within 32 bits when every chunk of `cs` gains a
/// reference per mention.
pub open spec fn refs_fit(refs: Seq<([u8; 32], u32)>, cs: Seq<[u8; 32]>) -> bool {
    forall|c: [u8; 32]| #[trigger] occurrences(cs, c) + (match assoc_get(refs, c) {
        Some(n) => n as nat,
        None => 0nat,
    }) <= u32::MAX
}

/// What an operation asks of the counts: none may pass 32 bits.
pub open spec fn op_fits(refs: Seq<([u8; 32], u32)>, op: OperationView) -> bool {
    match op {
        OperationView::CreateMessage { msg_id, feed_id, body, attachments, created_at } => refs_fit(refs, attachments),
        OperationView::Attach { msg_id, attachment_cids } => refs_fit(refs, attachment_cids),
        _ => true,
    }
}

proof fn lemma_occurrences_step(s: Seq<[u8; 32]>, i: int, c: [u8; 32])
    requires
        0 <= i < s.len(),
    ensures
        occurrences(s.take(i + 1), c) == occurrences(s.take(i), c) + if s[i] == c { 1nat } else { 0nat },
        occurrences(s.take(i), c) <= occurrences(s, c),
        s[i] == c ==> occurrences(s.take(i), c) + 1 <= occurrences(s, c),
    decreases s.len(),
{
    assert(s.take(i + 1).drop_last() =~= s.take(i));
    if i + 1 < s.len() {
        lemma_occurrences_step(s.drop_last(), i, c);
        assert(s.drop_last().take(i + 1) =~= s.take(i + 1));
        assert(s.drop_last().take(i) =~= s.take(i));
    } else {
        assert(s.take(i + 1) =~= s);
    }
}

/// The rows of feed `feed` that are not purged, in table order.
pub open spec fn feed_rows(ms: Seq<([u8; 32], MessageView)>, feed: Seq<char>) -> Seq<MessageView>
    decreases ms.len(),
{
    if ms.len() == 0 {
        Seq::empty()
    } else {
        let r = feed_rows(ms.drop_last(), feed);
        let row = ms.last().1;
        if row.feed_id == feed && !row.is_purged { r.push(row) } else { r }
    }
}

/// Where a row goes in a list kept newest first: after every row created
/// at the same time or later.
pub open spec fn newest_first_pos(s: Seq<MessageView>, x: MessageView) -> int
    decreases s.len(),
{
    if s.len() == 0 {
        0
    } else if s[0].created_at < x.created_at {
        0
    } else {
        1 + newest_first_pos(s.drop_first(), x)
    }
}

/// Rows newest first, rows created at the same time in the order given.
pub open spec fn newest_first(s: Seq<MessageView>) -> Seq<MessageView>
    decreases s.len(),
{
    if s.len() == 0 {
        Seq::empty()
    } else {
        let r = newest_first(s.drop_last());
        r.insert(newest_first_pos(r, s.last()), s.last())
    }
}

proof fn lemma_feed_rows_match(ms: Seq<([u8; 32], MessageView)>, feed: Seq<char>)
    ensures
        forall|k: int| 0 <= k < feed_rows(ms, feed).len()
            ==> (#[trigger] feed_rows(ms, feed)[k]).feed_id == feed && !feed_rows(ms, feed)[k].is_purged,
    decreases ms.len(),
{
    if ms.len() > 0 {
        lemma_feed_rows_match(ms.drop_last(), feed);
    }
}

/// An attachment undone by a detachment of the same chunks gives every
/// count back, but for a count of zero, which is dropped.
pub proof fn lemma_detach_undoes_attach(o: Option<u32>, k: nat)
    requires
        k + (match o {
            Some(n) => n as nat,
            None => 0nat,
        }) <= u32::MAX,
    ensures
        count_after_decs(count_after_incs(o, k), k) == (if o == Some(0u32) && k > 0 { None } else { o }),
        released_by(count_after_incs(o, k), k) == (k > 0 && (o is None || o == Some(0u32))),
{
}

proof fn lemma_newest_first_pos(s: Seq<MessageView>, x: MessageView)
    ensures
        0 <= newest_first_pos(s, x) <= s.len(),
        forall|j: int| 0 <= j < newest_first_pos(s, x) ==> (#[trigger] s[j]).created_at >= x.created_at,
        newest_first_pos(s, x) < s.len() ==> s[newest_first_pos(s, x)].created_at < x.created_at,
    decreases s.len(),
{
    if s.len() > 0 && s[0].created_at >= x.created_at {
        lemma_newest_first_pos(s.drop_first(), x);
        assert forall|j: int| 0 <= j < newest_first_pos(s, x) implies (#[trigger] s[j]).created_at >= x.created_at by {
            if j > 0 {
                assert(s[j] == s.drop_first()[j - 1]);
            }
        }
    }
}

proof fn lemma_newest_first_pos_is(s: Seq<MessageView>, x: MessageView, p: int)
    requires
        0 <= p <= s.len(),
        forall|j: int| 0 <= j < p ==> (#[trigger] s[j]).created_at >= x.created_at,
        p < s.len() ==> s[p].created_at < x.created_at,
    ensures
        newest_first_pos(s, x) == p,
    decreases p,
{
    if p > 0 {
        assert(s[0].created_at >= x.created_at);
        assert forall|j: int| 0 <= j < p - 1 implies (#[trigger] s.drop_first()[j]).created_at >= x.created_at by {
            assert(s.drop_first()[j] == s[j + 1]);
        }
        lemma_newest_first_pos_is(s.drop_first(), x, p - 1);
    }
}

/// Rows put newest first are ordered by creation time, latest first, and
/// are the rows given.
pub proof fn lemma_newest_first_sorted(s: Seq<MessageView>)
    ensures
        newest_first(s).len() == s.len(),
        newest_first(s).to_multiset() == s.to_multiset(),
        forall|i: int, j: int| 0 <= i < j < s.len()
            ==> (#[trigger] newest_first(s)[i]).created_at >= (#[trigger] newest_first(s)[j]).created_at,
    decreases s.len(),
{
    if s.len() > 0 {
        let r = newest_first(s.drop_last());
        let x = s.last();
        lemma_newest_first_sorted(s.drop_last());
        lemma_newest_first_pos(r, x);
        let p = newest_first_pos(r, x);
        let t = r.insert(p, x);
        assert(s.drop_last().push(x) =~= s);
        vstd::seq_lib::to_multiset_build(s.drop_last(), x);
        r.insert_ensures(p, x);
        vstd::seq_lib::to_multiset_insert(r, p, x);
        assert(t.to_multiset() == s.drop_last().push(x).to_multiset());
        assert(newest_first(s) == t);
        assert forall|i: int, j: int| 0 <= i < j < t.len() implies (#[trigger] t[i]).created_at >= (#[trigger] t[j]).created_at by {
            if j < p {
                assert(t[i] == r[i] && t[j] == r[j]);
            } else if j == p {
                assert(t[i] == r[i]);
            } else if i < p {
                assert(t[i] == r[i] && t[j] == r[j - 1]);
                if j - 1 >= p { assert(r[i].created_at >= r[j - 1].created_at); }
            } else if i == p {
                assert(t[j] == r[j - 1]);
                assert(r[p].created_at < x.created_at);
                if j - 1 > p { assert(r[p].created_at >= r[j - 1].created_at); }
            } else {
                assert(t[i] == r[i - 1] && t[j] == r[j - 1]);
            }
        }
    } else {
        assert(s =~= Seq::<MessageView>::empty());
    }
}

proof fn lemma_distinct_get(s: Seq<([u8; 32], u32)>, j: int)
    requires
        distinct_keys(s),
        0 <= j < s.len(),
    ensures
        assoc_get(s, s[j].0) == Some(s[j].1),
{
    lemma_assoc_found(s, j, s[j].0);
}

/// Lookups after dropping the entry at `i` of a list with distinct keys.
proof fn lemma_distinct_remove(s: Seq<([u8; 32], u32)>, i: int, k: [u8; 32])
    requires
        distinct_keys(s),
        0 <= i < s.len(),
    ensures
        distinct_keys(s.remove(i)),
        assoc_get(s.remove(i), k) == (if k == s[i].0 { None } else { assoc_get(s, k) }),
{
    let t = s.remove(i);
    assert forall|a: int, b: int| 0 <= a < t.len() && 0 <= b < t.len() && a != b implies t[a].0 != t[b].0 by {
        let a2 = if a < i { a } else { a + 1 };
        let b2 = if b < i { b } else { b + 1 };
        assert(t[a] == s[a2]);
        assert(t[b] == s[b2]);
    }
    if exists|j: int| 0 <= j < t.len() && t[j].0 == k {
        let j = choose|j: int| 0 <= j < t.len() && t[j].0 == k;
        let j2 = if j < i { j } else { j + 1 };
        assert(t[j] == s[j2]);
        lemma_distinct_get(t, j);
        lemma_distinct_get(s, j2);
    } else {
        lemma_assoc_absent(t, k);
        if k != s[i].0 {
            assert forall|j: int| 0 <= j < s.len() implies s[j].0 != k by {
                if j < i {
                    assert(t[j] == s[j]);
                } else if j > i {
                    assert(t[j - 1] == s[j]);
                }
            }
            lemma_assoc_absent(s, k);
        }
    }
}

/// The name under which an operation's kind is stored.
pub open spec fn operation_type_text(op: OperationView) -> Seq<char> {
    match op {
        OperationView::CreateMessage { .. } => "CreateMessage"@,
        OperationView::EditMessage { .. } => "EditMessage"@,
        OperationView::DeleteMessage { .. } => "DeleteMessage"@,
        OperationView::Attach { .. } => "Attach"@,
        OperationView::Detach { .. } => "Detach"@,
        OperationView::Ack { .. } => "Ack"@,
        OperationView::Purge { .. } => "Purge"@,
    }
}

/// The name under which an operation's kind is stored.
pub fn operation_type_name(operation: &Operation) -> (r: String)
    ensures
        r@ == operation_type_text(operation@),
{
    match operation {
        Operation::CreateMessage { .. } => String::from_str("CreateMessage"),
        Operation::EditMessage { .. } => String::from_str("EditMessage"),
        Operation::DeleteMessage { .. } => String::from_str("DeleteMessage"),
        Operation::Attach { .. } => String::from_str("Attach"),
        Operation::Detach { .. } => String::from_str("Detach"),
        Operation::Ack { .. } => String::from_str("Ack"),
        Operation::Purge { .. } => String::from_str("Purge"),
    }
}

/// A copy of a message row.
fn copy_message(m: &Message) -> (r: Message)
    ensures
        r@ == m@,
{
    Message {
        msg_id: m.msg_id,
        feed_id: copy_string(&m.feed_id),
        body: copy_string(&m.body),
        created_at: m.created_at,
        edited_at: m.edited_at,
        deleted_at: m.deleted_at,
        author_device: m.author_device,
        is_purged: m.is_purged,
    }
}

impl MaterializedViews {
    /// The tables are consistent: no chunk has two counts.
    pub closed spec fn wf(&self) -> bool {
        &&& distinct_keys(self.chunk_refs@)
        &&& self.attachments@.no_duplicates()
    }

    /// Empty tables.
    pub fn new() -> (r: Self)
        ensures
            r.wf(),
            r@.messages.len() == 0,
            r@.attachments.is_empty(),
            r@.chunk_refs.len() == 0,
    {
        let r = MaterializedViews { messages: Vec::new(), attachments: Vec::new(), chunk_refs: Vec::new() };
        assert(r@.messages =~= Seq::<([u8; 32], MessageView)>::empty());
        assert(r@.attachments =~= Set::<([u8; 32], [u8; 32])>::empty());
        r
    }

    fn find_ref(&self, id: &[u8; 32]) -> (r: Option<usize>)
        requires
            self.wf(),
        ensures
            match r {
                Some(i) => i < self@.chunk_refs.len() && self@.chunk_refs[i as int].0 == *id
                    && assoc_get(self@.chunk_refs, *id) == Some(self@.chunk_refs[i as int].1),
                None => assoc_get(self@.chunk_refs, *id) is None
                    && (forall|j: int| 0 <= j < self@.chunk_refs.len() ==> self@.chunk_refs[j].0 != *id),
            },
    {
        let mut i: usize = 0;
        while i < self.chunk_refs.len()
            invariant
                i <= self.chunk_refs@.len(),
                forall|j: int| 0 <= j < i ==> self@.chunk_refs[j].0 != *id,
            decreases self.chunk_refs@.len() - i,
        {
            if hash_eq(&self.chunk_refs[i].0, id) {
                proof { lemma_assoc_found(self@.chunk_refs, i as int, *id); }
                return Some(i);
            }
            i = i + 1;
        }
        proof { lemma_assoc_absent(self@.chunk_refs, *id); }
        None
    }

    /// Sets the count of a chunk, in place of any count it had.
    fn put_ref(&mut self, id: [u8; 32], n: u32)
        requires
            old(self).wf(),
        ensures
            final(self).wf(),
            final(self)@.messages == old(self)@.messages,
            final(self)@.attachments == old(self)@.attachments,
            forall|k: [u8; 32]| #[trigger] assoc_get(final(self)@.chunk_refs, k)
                == (if k == id { Some(n) } else { assoc_get(old(self)@.chunk_refs, k) }),
    {
        let ghost before = self@.chunk_refs;
        match self.find_ref(&id) {
            Some(i) => {
                self.chunk_refs.set(i, (id, n));
                proof {
                    assert(self@.chunk_refs =~= before.update(i as int, (id, n)));
                    assert forall|k: [u8; 32]| #[trigger] assoc_get(self@.chunk_refs, k)
                        == (if k == id { Some(n) } else { assoc_get(before, k) }) by {
                        assert forall|j: int| 0 <= j < i implies before[j].0 != before[i as int].0 by {}
                        lemma_assoc_update(before, i as int, n, k);
                    }
                }
            }
            None => {
                self.chunk_refs.push((id, n));
                proof {
                    assert(self@.chunk_refs =~= before.push((id, n)));
                    assert forall|k: [u8; 32]| #[trigger] assoc_get(self@.chunk_refs, k)
                        == (if k == id { Some(n) } else { assoc_get(before, k) }) by {
                        lemma_assoc_push(before, id, n, k);
                    }
                }
            }
        }
    }

    fn find_message(&self, id: &[u8; 32]) -> (r: Option<usize>)
        ensures
            match r {
                Some(i) => i < self@.messages.len() && self@.messages[i as int].0 == *id
                    && (forall|j: int| 0 <= j < i ==> self@.messages[j].0 != *id)
                    && assoc_get(self@.messages, *id) == Some(self@.messages[i as int].1),
                None => assoc_get(self@.messages, *id) is None
                    && (forall|j: int| 0 <= j < self@.messages.len() ==> self@.messages[j].0 != *id),
            },
    {
        let mut i: usize = 0;
        while i < self.messages.len()
            invariant
                i <= self.messages@.len(),
                forall|j: int| 0 <= j < i ==> self@.messages[j].0 != *id,
            decreases self.messages@.len() - i,
        {
            if hash_eq(&self.messages[i].msg_id, id) {
                proof { lemma_assoc_found(self@.messages, i as int, *id); }
                return Some(i);
            }
            i = i + 1;
        }
        proof { lemma_assoc_absent(self@.messages, *id); }
        None
    }

    /// Replaces the row at `i`, which holds the first row of its message,
    /// by a row of the same message.
    fn set_message(&mut self, i: usize, row: Message)
        requires
            old(self).wf(),
            i < old(self)@.messages.len(),
            old(self)@.messages[i as int].0 == row.msg_id,
            forall|j: int| 0 <= j < i ==> old(self)@.messages[j].0 != row.msg_id,
        ensures
            final(self).wf(),
            final(self)@.attachments == old(self)@.attachments,
            final(self)@.chunk_refs == old(self)@.chunk_refs,
            forall|m: [u8; 32]| #[trigger] assoc_get(final(self)@.messages, m)
                == (if m == row.msg_id { Some(row@) } else { assoc_get(old(self)@.messages, m) }),
    {
        let ghost id = row.msg_id;
        let ghost rv = row@;
        let ghost before = self@.messages;
        self.messages.set(i, row);
        proof {
            assert(self@.messages =~= before.update(i as int, (id, rv)));
            assert forall|m: [u8; 32]| #[trigger] assoc_get(self@.messages, m)
                == (if m == id { Some(rv) } else { assoc_get(before, m) }) by {
                lemma_assoc_update(before, i as int, rv, m);
            }
        }
    }

    /// Writes a row, in place of any row of the same message.
    fn put_message(&mut self, row: Message)
        requires
            old(self).wf(),
        ensures
            final(self).wf(),
            final(self)@.attachments == old(self)@.attachments,
            final(self)@.chunk_refs == old(self)@.chunk_refs,
            forall|m: [u8; 32]| #[trigger] assoc_get(final(self)@.messages, m)
                == (if m == row.msg_id { Some(row@) } else { assoc_get(old(self)@.messages, m) }),
    {
        let ghost id = row.msg_id;
        let ghost rv = row@;
        let ghost before = self@.messages;
        match self.find_message(&row.msg_id) {
            Some(i) => { self.set_message(i, row); }
            None => {
                self.messages.push(row);
                proof {
                    assert(self@.messages =~= before.push((id, rv)));
                    assert forall|m: [u8; 32]| #[trigger] assoc_get(self@.messages, m)
                        == (if m == id { Some(rv) } else { assoc_get(before, m) }) by {
                        lemma_assoc_push(before, id, rv, m);
                    }
                }
            }
        }
    }

    /// Whether a pair is recorded.
    fn has_pair(&self, p: ([u8; 32], [u8; 32])) -> (r: bool)
        ensures
            r == self@.attachments.contains(p),
    {
        let mut i: usize = 0;
        while i < self.attachments.len()
            invariant
                i <= self.attachments@.len(),
                forall|j: int| 0 <= j < i ==> self.attachments@[j] != p,
            decreases self.attachments@.len() - i,
        {
            if hash_eq(&self.attachments[i].0, &p.0) && hash_eq(&self.attachments[i].1, &p.1) {
                assert(self.attachments@[i as int] == p);
                return true;
            }
            i = i + 1;
        }
        false
    }

    /// Records a pair (once).
    fn add_pair(&mut self, m: [u8; 32], c: [u8; 32])
        requires
            old(self).wf(),
        ensures
            final(self).wf(),
            final(self)@.messages == old(self)@.messages,
            final(self)@.chunk_refs == old(self)@.chunk_refs,
            final(self)@.attachments == old(self)@.attachments.insert((m, c)),
    {
        let ghost before = self.attachments@;
        if !self.has_pair((m, c)) {
            self.attachments.push((m, c));
            proof {
                assert(self.attachments@ == before.push((m, c)));
                assert forall|a: int, b: int| 0 <= a < b < self.attachments@.len() implies self.attachments@[a] != self.attachments@[b] by {
                    if b == before.len() { assert(before.contains(before[a])); }
                }
                assert forall|p: ([u8; 32], [u8; 32])| #[trigger] self@.attachments.contains(p)
                    == before.to_set().insert((m, c)).contains(p) by {
                    if before.contains(p) {
                        let j = choose|j: int| 0 <= j < before.len() && before[j] == p;
                        assert(self.attachments@[j] == p);
                    }
                    if p == (m, c) { assert(self.attachments@[before.len() as int] == p); }
                    if self.attachments@.contains(p) {
                        let j = choose|j: int| 0 <= j < self.attachments@.len() && self.attachments@[j] == p;
                        if j < before.len() { assert(before[j] == p); }
                    }
                }
                assert(self@.attachments =~= before.to_set().insert((m, c)));
            }
        } else {
            proof { assert(self@.attachments =~= before.to_set().insert((m, c))); }
        }
    }

    /// Drops the pairs of message `m` (with chunk `only`, when given); gives
    /// the chunks of the pairs dropped.
    fn drop_pairs(&mut self, m: [u8; 32], only: Option<[u8; 32]>) -> (removed: Vec<[u8; 32]>)
        requires
            old(self).wf(),
        ensures
            final(self).wf(),
            final(self)@.messages == old(self)@.messages,
            final(self)@.chunk_refs == old(self)@.chunk_refs,
            final(self)@.attachments == Set::new(|p: ([u8; 32], [u8; 32])| old(self)@.attachments.contains(p)
                && !(p.0 == m && (only matches Some(c) ==> p.1 == c))),
            removed@.no_duplicates(),
            forall|x: [u8; 32]| #[trigger] removed@.contains(x)
                == (old(self)@.attachments.contains((m, x)) && (only matches Some(c) ==> x == c)),
    {
        let ghost att = self.attachments@;
        let mut kept: Vec<([u8; 32], [u8; 32])> = Vec::new();
        let mut removed: Vec<[u8; 32]> = Vec::new();
        let mut i: usize = 0;
        while i < self.attachments.len()
            invariant
                i <= att.len(),
                att == self.attachments@,
                att.no_duplicates(),
                kept@.no_duplicates(),
                removed@.no_duplicates(),
                forall|p: ([u8; 32], [u8; 32])| #[trigger] kept@.contains(p)
                    == (exists|j: int| 0 <= j < i && att[j] == p && !pair_dropped(p, m, only)),
                forall|x: [u8; 32]| #[trigger] removed@.contains(x)
                    == (exists|j: int| 0 <= j < i && att[j] == (m, x) && pair_dropped((m, x), m, only)),
            decreases att.len() - i,
        {
            let p = self.attachments[i];
            let d0 = hash_eq(&p.0, &m);
            let d1 = match only {
                Some(c) => hash_eq(&p.1, &c),
                None => true,
            };
            let d = d0 && d1;
            proof {
                assert(d1 == (only matches Some(c) ==> p.1 == c));
                assert(d == pair_dropped(p, m, only));
                assert forall|j: int| 0 <= j < i implies att[j] != p by {
                    assert(att[i as int] == p);
                }
            }
            if d {
                let ghost r0 = removed@;
                removed.push(p.1);
                proof {
                    assert forall|a: int, b: int| 0 <= a < b < removed@.len() implies removed@[a] != removed@[b] by {
                        if b == r0.len() {
                            assert(r0.contains(r0[a]));
                            let j = choose|j: int| 0 <= j < i && att[j] == (m, r0[a]) && pair_dropped((m, r0[a]), m, only);
                            assert(att[j] != p);
                        }
                    }
                    assert forall|x: [u8; 32]| #[trigger] removed@.contains(x)
                        == (exists|j: int| 0 <= j < i + 1 && att[j] == (m, x) && pair_dropped((m, x), m, only)) by {
                        if x == p.1 {
                            assert(removed@[r0.len() as int] == x);
                            assert(att[i as int] == (m, x));
                        }
                        if removed@.contains(x) {
                            let k = choose|k: int| 0 <= k < removed@.len() && removed@[k] == x;
                            if k < r0.len() { assert(r0[k] == x); assert(r0.contains(x)); }
                        }
                        if r0.contains(x) {
                            let k = choose|k: int| 0 <= k < r0.len() && r0[k] == x;
                            assert(removed@[k] == x);
                        }
                    }
                    assert forall|q: ([u8; 32], [u8; 32])| #[trigger] kept@.contains(q)
                        == (exists|j: int| 0 <= j < i + 1 && att[j] == q && !pair_dropped(q, m, only)) by {
                        if exists|j: int| 0 <= j < i + 1 && att[j] == q && !pair_dropped(q, m, only) {
                            let j = choose|j: int| 0 <= j < i + 1 && att[j] == q && !pair_dropped(q, m, only);
                            assert(j < i);
                        }
                    }
                }
            } else {
                let ghost k0 = kept@;
                kept.push(p);
                proof {
                    assert forall|a: int, b: int| 0 <= a < b < kept@.len() implies kept@[a] != kept@[b] by {
                        if b == k0.len() {
                            assert(k0.contains(k0[a]));
                        }
                    }
                    assert forall|q: ([u8; 32], [u8; 32])| #[trigger] kept@.contains(q)
                        == (exists|j: int| 0 <= j < i + 1 && att[j] == q && !pair_dropped(q, m, only)) by {
                        if q == p { assert(kept@[k0.len() as int] == q); assert(att[i as int] == q); }
                        if kept@.contains(q) {
                            let k = choose|k: int| 0 <= k < kept@.len() && kept@[k] == q;
                            if k < k0.len() { assert(k0[k] == q); assert(k0.contains(q)); }
                        }
                        if k0.contains(q) {
                            let k = choose|k: int| 0 <= k < k0.len() && k0[k] == q;
                            assert(kept@[k] == q);
                        }
                    }
                    assert forall|x: [u8; 32]| #[trigger] removed@.contains(x)
                        == (exists|j: int| 0 <= j < i + 1 && att[j] == (m, x) && pair_dropped((m, x), m, only)) by {
                        if exists|j: int| 0 <= j < i + 1 && att[j] == (m, x) && pair_dropped((m, x), m, only) {
                            let j = choose|j: int| 0 <= j < i + 1 && att[j] == (m, x) && pair_dropped((m, x), m, only);
                            assert(j < i);
                        }
                    }
                }
            }
            i = i + 1;
        }
        self.attachments = kept;
        proof {
            assert forall|p: ([u8; 32], [u8; 32])| #[trigger] self@.attachments.contains(p)
                == (att.to_set().contains(p) && !pair_dropped(p, m, only)) by {
                if att.contains(p) && !pair_dropped(p, m, only) {
                    let j = choose|j: int| 0 <= j < att.len() && att[j] == p;
                    assert(self.attachments@.contains(p));
                }
            }
            assert forall|x: [u8; 32]| #[trigger] removed@.contains(x)
                == (att.to_set().contains((m, x)) && pair_dropped((m, x), m, only)) by {
                if att.contains((m, x)) && pair_dropped((m, x), m, only) {
                    let j = choose|j: int| 0 <= j < att.len() && att[j] == (m, x);
                    assert(removed@.contains(x));
                }
            }
            assert(self@.attachments =~= Set::new(|p: ([u8; 32], [u8; 32])| att.to_set().contains(p)
                && !(p.0 == m && (only matches Some(c) ==> p.1 == c))));
        }
        removed
    }

    /// Each chunk of `cs` gains a reference per mention and is paired with
    /// message `m`.
    fn attach_all(&mut self, m: [u8; 32], cs: &Vec<[u8; 32]>)
        requires
            old(self).wf(),
            refs_fit(old(self)@.chunk_refs, cs@),
        ensures
            final(self).wf(),
            final(self)@.messages == old(self)@.messages,
            final(self)@.attachments == old(self)@.attachments.union(pairs_of(m, cs@)),
            forall|c: [u8; 32]| #[trigger] assoc_get(final(self)@.chunk_refs, c)
                == count_after_incs(assoc_get(old(self)@.chunk_refs, c), occurrences(cs@, c)),
    {
        let mut i: usize = 0;
        while i < cs.len()
            invariant
                i <= cs@.len(),
                self.wf(),
                refs_fit(old(self)@.chunk_refs, cs@),
                self@.messages == old(self)@.messages,
                self@.attachments == old(self)@.attachments.union(pairs_of(m, cs@.take(i as int))),
                forall|c: [u8; 32]| #[trigger] assoc_get(self@.chunk_refs, c)
                    == count_after_incs(assoc_get(old(self)@.chunk_refs, c), occurrences(cs@.take(i as int), c)),
            decreases cs@.len() - i,
        {
            let c = cs[i];
            let ghost a0 = self@.attachments;
            proof {
                lemma_occurrences_step(cs@, i as int, c);
                assert(occurrences(cs@, c) + (match assoc_get(old(self)@.chunk_refs, c) {
                    Some(n) => n as nat,
                    None => 0nat,
                }) <= u32::MAX);
            }
            self.increment_chunk_ref(c);
            self.add_pair(m, c);
            proof {
                assert forall|x: [u8; 32]| #[trigger] assoc_get(self@.chunk_refs, x)
                    == count_after_incs(assoc_get(old(self)@.chunk_refs, x), occurrences(cs@.take(i + 1), x)) by {
                    lemma_occurrences_step(cs@, i as int, x);
                    assert(occurrences(cs@, x) + (match assoc_get(old(self)@.chunk_refs, x) {
                        Some(n) => n as nat,
                        None => 0nat,
                    }) <= u32::MAX);
                }
                assert forall|p: ([u8; 32], [u8; 32])| #[trigger] self@.attachments.contains(p)
                    == old(self)@.attachments.union(pairs_of(m, cs@.take(i + 1))).contains(p) by {
                    let t0 = cs@.take(i as int);
                    let t1 = cs@.take(i + 1);
                    if t1.contains(p.1) {
                        let k = choose|k: int| 0 <= k < t1.len() && t1[k] == p.1;
                        if k < i { assert(t0[k] == p.1); }
                    }
                    if t0.contains(p.1) {
                        let k = choose|k: int| 0 <= k < t0.len() && t0[k] == p.1;
                        assert(t1[k] == p.1);
                    }
                    assert(t1[i as int] == c);
                }
                assert(self@.attachments =~= old(self)@.attachments.union(pairs_of(m, cs@.take(i + 1))));
            }
            i = i + 1;
        }
        proof { assert(cs@.take(cs@.len() as int) =~= cs@); }
    }

    /// Each chunk of `cs` loses a reference per mention and is unpaired
    /// from message `m`; gives the chunks whose count reached zero.
    fn detach_all(&mut self, m: [u8; 32], cs: &Vec<[u8; 32]>) -> (released: Vec<[u8; 32]>)
        requires
            old(self).wf(),
        ensures
            final(self).wf(),
            final(self)@.messages == old(self)@.messages,
            final(self)@.attachments == old(self)@.attachments.difference(pairs_of(m, cs@)),
            forall|c: [u8; 32]| #[trigger] assoc_get(final(self)@.chunk_refs, c)
                == count_after_decs(assoc_get(old(self)@.chunk_refs, c), occurrences(cs@, c)),
            forall|c: [u8; 32]| #[trigger] released@.contains(c)
                == released_by(assoc_get(old(self)@.chunk_refs, c), occurrences(cs@, c)),
    {
        let mut released: Vec<[u8; 32]> = Vec::new();
        let mut i: usize = 0;
        while i < cs.len()
            invariant
                i <= cs@.len(),
                self.wf(),
                self@.messages == old(self)@.messages,
                self@.attachments == old(self)@.attachments.difference(pairs_of(m, cs@.take(i as int))),
                forall|c: [u8; 32]| #[trigger] assoc_get(self@.chunk_refs, c)
                    == count_after_decs(assoc_get(old(self)@.chunk_refs, c), occurrences(cs@.take(i as int), c)),
                forall|c: [u8; 32]| #[trigger] released@.contains(c)
                    == released_by(assoc_get(old(self)@.chunk_refs, c), occurrences(cs@.take(i as int), c)),
            decreases cs@.len() - i,
        {
            let c = cs[i];
            let ghost r0 = released@;
            let ghost a0 = self@.attachments;
            let gone = self.decrement_chunk_ref(c);
            let _ = self.drop_pairs(m, Some(c));
            if gone {
                released.push(c);
            }
            proof {
                assert forall|x: [u8; 32]| #[trigger] assoc_get(self@.chunk_refs, x)
                    == count_after_decs(assoc_get(old(self)@.chunk_refs, x), occurrences(cs@.take(i + 1), x)) by {
                    lemma_occurrences_step(cs@, i as int, x);
                }
                assert forall|x: [u8; 32]| #[trigger] released@.contains(x)
                    == released_by(assoc_get(old(self)@.chunk_refs, x), occurrences(cs@.take(i + 1), x)) by {
                    lemma_occurrences_step(cs@, i as int, x);
                    if gone {
                        if released@.contains(x) {
                            let k = choose|k: int| 0 <= k < released@.len() && released@[k] == x;
                            if k < r0.len() { assert(r0[k] == x); assert(r0.contains(x)); }
                        }
                        if r0.contains(x) {
                            let k = choose|k: int| 0 <= k < r0.len() && r0[k] == x;
                            assert(released@[k] == x);
                        }
                        if x == c { assert(released@[r0.len() as int] == x); }
                    }
                }
                assert forall|p: ([u8; 32], [u8; 32])| #[trigger] self@.attachments.contains(p)
                    == old(self)@.attachments.difference(pairs_of(m, cs@.take(i + 1))).contains(p) by {
                    let t0 = cs@.take(i as int);
                    let t1 = cs@.take(i + 1);
                    if t1.contains(p.1) {
                        let k = choose|k: int| 0 <= k < t1.len() && t1[k] == p.1;
                        if k < i { assert(t0[k] == p.1); }
                    }
                    if t0.contains(p.1) {
                        let k = choose|k: int| 0 <= k < t0.len() && t0[k] == p.1;
                        assert(t1[k] == p.1);
                    }
                    assert(t1[i as int] == c);
                }
                assert(self@.attachments =~= old(self)@.attachments.difference(pairs_of(m, cs@.take(i + 1))));
            }
            i = i + 1;
        }
        proof { assert(cs@.take(cs@.len() as int) =~= cs@); }
        released
    }

    /// Each chunk of `cs`, which names none twice, loses one reference;
    /// gives the chunks whose count reached zero.
    fn release_each(&mut self, cs: &Vec<[u8; 32]>) -> (released: Vec<[u8; 32]>)
        requires
            old(self).wf(),
            cs@.no_duplicates(),
        ensures
            final(self).wf(),
            final(self)@.messages == old(self)@.messages,
            final(self)@.attachments == old(self)@.attachments,
            forall|c: [u8; 32]| #[trigger] assoc_get(final(self)@.chunk_refs, c) == (if cs@.contains(c) {
                count_after_decs(assoc_get(old(self)@.chunk_refs, c), 1)
            } else {
                assoc_get(old(self)@.chunk_refs, c)
            }),
            forall|c: [u8; 32]| #[trigger] released@.contains(c)
                == (cs@.contains(c) && released_by(assoc_get(old(self)@.chunk_refs, c), 1)),
    {
        let mut released: Vec<[u8; 32]> = Vec::new();
        let mut i: usize = 0;
        while i < cs.len()
            invariant
                i <= cs@.len(),
                cs@.no_duplicates(),
                self.wf(),
                self@.messages == old(self)@.messages,
                self@.attachments == old(self)@.attachments,
                forall|c: [u8; 32]| #[trigger] assoc_get(self@.chunk_refs, c) == (if cs@.take(i as int).contains(c) {
                    count_after_decs(assoc_get(old(self)@.chunk_refs, c), 1)
                } else {
                    assoc_get(old(self)@.chunk_refs, c)
                }),
                forall|c: [u8; 32]| #[trigger] released@.contains(c)
                    == (cs@.take(i as int).contains(c) && released_by(assoc_get(old(self)@.chunk_refs, c), 1)),
            decreases cs@.len() - i,
        {
            let c = cs[i];
            let ghost r0 = released@;
            let ghost t0 = cs@.take(i as int);
            let ghost t1 = cs@.take(i + 1);
            proof {
                assert(!t0.contains(c)) by {
                    if t0.contains(c) {
                        let k = choose|k: int| 0 <= k < t0.len() && t0[k] == c;
                        assert(cs@[k] == cs@[i as int]);
                    }
                }
                assert forall|x: [u8; 32]| #[trigger] t1.contains(x) == (t0.contains(x) || x == c) by {
                    if t1.contains(x) {
                        let k = choose|k: int| 0 <= k < t1.len() && t1[k] == x;
                        if k < i { assert(t0[k] == x); }
                    }
                    if t0.contains(x) {
                        let k = choose|k: int| 0 <= k < t0.len() && t0[k] == x;
                        assert(t1[k] == x);
                    }
                    assert(t1[i as int] == c);
                }
            }
            let gone = self.decrement_chunk_ref(c);
            if gone {
                released.push(c);
            }
            proof {
                assert forall|x: [u8; 32]| #[trigger] released@.contains(x)
                    == (t1.contains(x) && released_by(assoc_get(old(self)@.chunk_refs, x), 1)) by {
                    if gone {
                        if released@.contains(x) {
                            let k = choose|k: int| 0 <= k < released@.len() && released@[k] == x;
                            if k < r0.len() { assert(r0[k] == x); assert(r0.contains(x)); }
                        }
                        if r0.contains(x) {
                            let k = choose|k: int| 0 <= k < r0.len() && r0[k] == x;
                            assert(released@[k] == x);
                        }
                        if x == c { assert(released@[r0.len() as int] == x); }
                    }
                }
            }
            i = i + 1;
        }
        proof { assert(cs@.take(cs@.len() as int) =~= cs@); }
        released
    }

    /// Applies an operation to the tables. Gives the chunks whose count
    /// reached zero: their files are to be deleted.
    pub fn update_materialized_views(&mut self, op: &Op) -> (released: Vec<[u8; 32]>)
        requires
            old(self).wf(),
            op_fits(old(self)@.chunk_refs, op@.operation),
        ensures
            final(self).wf(),
            forall|m: [u8; 32]| #[trigger] assoc_get(final(self)@.messages, m)
                == message_after(assoc_get(old(self)@.messages, m), op@, m),
            final(self)@.attachments == attachments_after(old(self)@.attachments, op@.operation),
            forall|c: [u8; 32]| #[trigger] assoc_get(final(self)@.chunk_refs, c)
                == ref_after(old(self)@.chunk_refs, old(self)@.attachments, op@.operation, c),
            forall|c: [u8; 32]| #[trigger] released@.contains(c)
                == released_after(old(self)@.chunk_refs, old(self)@.attachments, op@.operation, c),
    {
        match &op.operation {
            Operation::CreateMessage { msg_id, feed_id, body, attachments, created_at } => {
                let row = Message {
                    msg_id: *msg_id,
                    feed_id: copy_string(feed_id),
                    body: copy_string(body),
                    created_at: *created_at,
                    edited_at: None,
                    deleted_at: None,
                    author_device: op.id.device_pubkey,
                    is_purged: false,
                };
                self.put_message(row);
                self.attach_all(*msg_id, attachments);
                Vec::new()
            }
            Operation::EditMessage { msg_id, body, edited_at } => {
                match self.find_message(msg_id) {
                    Some(i) => {
                        let mut row = copy_message(&self.messages[i]);
                        row.body = copy_string(body);
                        row.edited_at = Some(*edited_at);
                        self.set_message(i, row);
                    }
                    None => {}
                }
                Vec::new()
            }
            Operation::DeleteMessage { msg_id, reason, deleted_at } => {
                match self.find_message(msg_id) {
                    Some(i) => {
                        let mut row = copy_message(&self.messages[i]);
                        row.deleted_at = Some(*deleted_at);
                        self.set_message(i, row);
                    }
                    None => {}
                }
                Vec::new()
            }
            Operation::Attach { msg_id, attachment_cids } => {
                self.attach_all(*msg_id, attachment_cids);
                Vec::new()
            }
            Operation::Detach { msg_id, attachment_cids } => self.detach_all(*msg_id, attachment_cids),
            Operation::Purge { msg_id, timestamp } => {
                match self.find_message(msg_id) {
                    Some(i) => {
                        let mut row = copy_message(&self.messages[i]);
                        row.is_purged = true;
                        self.set_message(i, row);
                    }
                    None => {}
                }
                let ghost a0 = self@.attachments;
                let cs = self.drop_pairs(*msg_id, None);
                proof {
                    assert(self@.attachments =~= Set::new(|p: ([u8; 32], [u8; 32])| a0.contains(p) && p.0 != *msg_id));
                }
                self.release_each(&cs)
            }
            Operation::Ack { up_to_op, timestamp } => Vec::new(),
        }
    }

    /// The messages of a feed that are not purged, newest first (rows
    /// created at the same time in table order).
    pub fn get_messages(&self, feed_id: &str) -> (r: Vec<Message>)
        ensures
            Seq::new(r@.len(), |i: int| r@[i]@) == newest_first(feed_rows(self@.messages, feed_id@)),
            forall|i: int, j: int| 0 <= i < j < r@.len() ==> (#[trigger] r@[i]).created_at >= (#[trigger] r@[j]).created_at,
            forall|i: int| 0 <= i < r@.len() ==> (#[trigger] r@[i]).feed_id@ == feed_id@ && !r@[i].is_purged,
    {
        let ghost ms = self@.messages;
        let mut acc: Vec<Message> = Vec::new();
        let mut i: usize = 0;
        while i < self.messages.len()
            invariant
                i <= self.messages@.len(),
                ms == self@.messages,
                Seq::new(acc@.len(), |k: int| acc@[k]@) == newest_first(feed_rows(ms.take(i as int), feed_id@)),
            decreases self.messages@.len() - i,
        {
            proof {
                assert(ms.take(i + 1).drop_last() =~= ms.take(i as int));
                assert(ms.take(i + 1).last() == ms[i as int]);
            }
            let row = &self.messages[i];
            if crate::recovery::str_eq(row.feed_id.as_str(), feed_id) && !row.is_purged {
                let ghost av = Seq::new(acc@.len(), |k: int| acc@[k]@);
                let mut p: usize = 0;
                while p < acc.len() && acc[p].created_at >= row.created_at
                    invariant
                        p <= acc@.len(),
                        av == Seq::new(acc@.len(), |k: int| acc@[k]@),
                        forall|j: int| 0 <= j < p ==> (#[trigger] av[j]).created_at >= row.created_at,
                    decreases acc@.len() - p,
                {
                    p = p + 1;
                }
                proof {
                    lemma_newest_first_pos_is(av, row@, p as int);
                    assert(feed_rows(ms.take(i + 1), feed_id@) == feed_rows(ms.take(i as int), feed_id@).push(row@));
                    assert(feed_rows(ms.take(i + 1), feed_id@).drop_last() =~= feed_rows(ms.take(i as int), feed_id@));
                }
                let ghost a0 = acc@;
                acc.insert(p, copy_message(row));
                proof {
                    av.insert_ensures(p as int, row@);
                    assert(Seq::new(acc@.len(), |k: int| acc@[k]@) =~= av.insert(p as int, row@));
                }
            }
            i = i + 1;
        }
        proof {
            assert(ms.take(ms.len() as int) =~= ms);
            lemma_newest_first_sorted(feed_rows(ms, feed_id@));
            let v = Seq::new(acc@.len(), |k: int| acc@[k]@);
            assert forall|i: int, j: int| 0 <= i < j < acc@.len() implies (#[trigger] acc@[i]).created_at >= (#[trigger] acc@[j]).created_at by {
                assert(v[i] == acc@[i]@);
                assert(v[j] == acc@[j]@);
            }
            lemma_feed_rows_match(ms, feed_id@);
            assert forall|i: int| 0 <= i < acc@.len() implies (#[trigger] acc@[i]).feed_id@ == feed_id@ && !acc@[i].is_purged by {
                assert(v[i] == acc@[i]@);
                assert(v.to_multiset().count(v[i]) > 0) by {
                    vstd::seq_lib::to_multiset_contains(v, v[i]);
                    assert(v.contains(v[i]));
                }
                let f = feed_rows(ms, feed_id@);
                assert(f.to_multiset().count(v[i]) > 0);
                vstd::seq_lib::to_multiset_contains(f, v[i]);
                assert(f.contains(v[i]));
                let k = choose|k: int| 0 <= k < f.len() && f[k] == v[i];
                assert(f[k].feed_id == feed_id@);
            }
        }
        acc
    }

    /// Takes rows of the stored count table (chunk id, count), each in
    /// place of any count held for its chunk.
    pub fn load_chunk_refs(&mut self, rows: &[([u8; 32], i64)])
        requires
            old(self).wf(),
        ensures
            final(self).wf(),
            final(self)@.messages == old(self)@.messages,
            final(self)@.attachments == old(self)@.attachments,
            forall|k: [u8; 32]| #[trigger] assoc_get(final(self)@.chunk_refs, k) == match last_row(rows@, k) {
                Some(n) => Some(loaded_count(n)),
                None => assoc_get(old(self)@.chunk_refs, k),
            },
    {
        let mut i: usize = 0;
        while i < rows.len()
            invariant
                i <= rows@.len(),
                self.wf(),
                self@.messages == old(self)@.messages,
                self@.attachments == old(self)@.attachments,
                forall|k: [u8; 32]| #[trigger] assoc_get(self@.chunk_refs, k) == match last_row(rows@.take(i as int), k) {
                    Some(n) => Some(loaded_count(n)),
                    None => assoc_get(old(self)@.chunk_refs, k),
                },
            decreases rows@.len() - i,
        {
            proof {
                assert(rows@.take(i + 1).drop_last() =~= rows@.take(i as int));
                assert(rows@.take(i + 1).last() == rows@[i as int]);
            }
            let (id, n) = rows[i];
            self.put_ref(id, n as u32);
            i = i + 1;
        }
        proof { assert(rows@.take(rows@.len() as int) =~= rows@); }
    }

    /// Adds one reference to a chunk.
    pub fn increment_chunk_ref(&mut self, id: [u8; 32])
        requires
            old(self).wf(),
            assoc_get(old(self)@.chunk_refs, id) matches Some(n) ==> n < u32::MAX,
        ensures
            final(self).wf(),
            final(self)@.messages == old(self)@.messages,
            final(self)@.attachments == old(self)@.attachments,
            forall|k: [u8; 32]| #[trigger] assoc_get(final(self)@.chunk_refs, k)
                == (if k == id { count_after_incs(assoc_get(old(self)@.chunk_refs, k), 1) } else { assoc_get(old(self)@.chunk_refs, k) }),
    {
        let n: u32 = match self.find_ref(&id) {
            Some(i) => self.chunk_refs[i].1 + 1,
            None => 1,
        };
        self.put_ref(id, n);
    }

    /// Drops one reference to a chunk; says whether the count reached zero,
    /// in which case the chunk's entry is dropped and its file is to be
    /// deleted. A chunk without a count, or with a zero count, is left
    /// as it is.
    pub fn decrement_chunk_ref(&mut self, id: [u8; 32]) -> (released: bool)
        requires
            old(self).wf(),
        ensures
            final(self).wf(),
            final(self)@.messages == old(self)@.messages,
            final(self)@.attachments == old(self)@.attachments,
            released == released_by(assoc_get(old(self)@.chunk_refs, id), 1),
            forall|k: [u8; 32]| #[trigger] assoc_get(final(self)@.chunk_refs, k)
                == (if k == id { count_after_decs(assoc_get(old(self)@.chunk_refs, k), 1) } else { assoc_get(old(self)@.chunk_refs, k) }),
    {
        let ghost before = self@.chunk_refs;
        match self.find_ref(&id) {
            Some(i) => {
                let n = self.chunk_refs[i].1;
                if n == 0 {
                    return false;
                }
                if n == 1 {
                    self.chunk_refs.remove(i);
                    proof {
                        assert forall|k: [u8; 32]| #[trigger] assoc_get(self@.chunk_refs, k)
                            == (if k == id { None } else { assoc_get(before, k) }) by {
                            lemma_distinct_remove(before, i as int, k);
                        }
                        lemma_distinct_remove(before, i as int, id);
                    }
                    true
                } else {
                    self.put_ref(id, n - 1);
                    false
                }
            }
            None => false,
        }
    }
}

} // verus!
