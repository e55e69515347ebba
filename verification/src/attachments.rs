//! The attachment table of the storage: one row per attached file (its
//! message, name, size, content hash, type, status and times) and, per
//! attachment, the ordered list of the chunks that hold its content.
//! Attachment ids are handed out in increasing order and never reused.
//! Times are Unix seconds.

use vstd::prelude::*;
use crate::events::copy_string;
use crate::ids::MessageId;
use crate::types::{AttachmentStats, AttachmentStatus, GarbageCollectionStats};

verus! {

/// An attached file.
#[derive(Debug)]
pub struct Attachment {
    pub id: i64,
    pub message_id: MessageId,
    pub filename: String,
    pub size: u64,
    /// BLAKE3 hash of the whole file.
    pub file_hash: [u8; 32],
    pub mime_type: Option<String>,
    pub status: AttachmentStatus,
    pub created_at: i64,
    pub last_accessed: Option<i64>,
}

/// The mathematical form of an [`Attachment`].
pub struct AttachmentView {
    pub id: i64,
    pub message_id: [u8; 32],
    pub filename: Seq<char>,
    pub size: u64,
    pub file_hash: [u8; 32],
    pub mime_type: Option<Seq<char>>,
    pub status: AttachmentStatus,
    pub created_at: i64,
    pub last_accessed: Option<i64>,
}

impl View for Attachment {
    type V = AttachmentView;

    open spec fn view(&self) -> AttachmentView {
        AttachmentView {
            id: self.id,
            message_id: self.message_id.0,
            filename: self.filename@,
            size: self.size,
            file_hash: self.file_hash,
            mime_type: match self.mime_type {
                Some(m) => Some(m@),
                None => None,
            },
            status: self.status,
            created_at: self.created_at,
            last_accessed: self.last_accessed,
        }
    }
}

/// The views of a list of attachments.
pub open spec fn attachment_views(v: Seq<Attachment>) -> Seq<AttachmentView> {
    Seq::new(v.len(), |i: int| v[i]@)
}

/// Why an attachment could not be stored.
#[derive(Clone, Copy, Debug, PartialEq, Eq, Structural)]
pub enum AttachmentError {
    /// Every attachment id has been handed out.
    IdsExhausted,
}

/// The text that an error reads as.
pub open spec fn attachment_error_text(e: AttachmentError) -> Seq<char> {
    match e {
        AttachmentError::IdsExhausted => "Storage error: No attachment id is left"@,
    }
}

impl AttachmentError {
    /// The text of the error.
    pub fn message(&self) -> (r: String)
        ensures
            r@ == attachment_error_text(*self),
    {
        match self {
            AttachmentError::IdsExhausted => String::from_str("Storage error: No attachment id is left"),
        }
    }
}

/// The mathematical form of an [`AttachmentStore`].
pub struct AttachmentStoreView {
    /// The rows, in the order they were stored.
    pub rows: Seq<AttachmentView>,
    /// The chunk list entries (attachment id, chunk id), each attachment's
    /// in order.
    pub chunks: Seq<(i64, [u8; 32])>,
    /// The last id handed out (0 before any).
    pub last_id: i64,
}

/// The attachment table.
pub struct AttachmentStore {
    rows: Vec<Attachment>,
    chunks: Vec<(i64, [u8; 32])>,
    last_id: i64,
}

impl View for AttachmentStore {
    type V = AttachmentStoreView;

    closed spec fn view(&self) -> AttachmentStoreView {
        AttachmentStoreView { rows: attachment_views(self.rows@), chunks: self.chunks@, last_id: self.last_id }
    }
}

/// The chunks of attachment `id`, in order.
pub open spec fn chunks_of(cs: Seq<(i64, [u8; 32])>, id: i64) -> Seq<[u8; 32]>
    decreases cs.len(),
{
    if cs.len() == 0 {
        Seq::empty()
    } else {
        let r = chunks_of(cs.drop_last(), id);
        if cs.last().0 == id { r.push(cs.last().1) } else { r }
    }
}

/// The chunk list entries of every attachment but `id`.
pub open spec fn chunks_without(cs: Seq<(i64, [u8; 32])>, id: i64) -> Seq<(i64, [u8; 32])>
    decreases cs.len(),
{
    if cs.len() == 0 {
        Seq::empty()
    } else {
        let r = chunks_without(cs.drop_last(), id);
        if cs.last().0 == id { r } else { r.push(cs.last()) }
    }
}

/// The first row with id `id`.
pub open spec fn row_with_id(rows: Seq<AttachmentView>, id: i64) -> Option<AttachmentView>
    decreases rows.len(),
{
    if rows.len() == 0 {
        None
    } else if rows[0].id == id {
        Some(rows[0])
    } else {
        row_with_id(rows.drop_first(), id)
    }
}

/// The rows with every row of id `id` changed by `f`.
pub open spec fn rows_where_id(rows: Seq<AttachmentView>, id: i64, f: spec_fn(AttachmentView) -> AttachmentView) -> Seq<AttachmentView> {
    Seq::new(rows.len(), |i: int| if rows[i].id == id { f(rows[i]) } else { rows[i] })
}

/// Which rows a query asks for.
pub enum RowFilter {
    All,
    Message([u8; 32]),
    FileHash([u8; 32]),
}

/// Whether a row is one a query asks for.
pub open spec fn row_selected(a: AttachmentView, f: RowFilter) -> bool {
    match f {
        RowFilter::All => true,
        RowFilter::Message(m) => a.message_id == m,
        RowFilter::FileHash(h) => a.file_hash == h,
    }
}

/// The rows a query asks for, in table order.
pub open spec fn rows_selected(rows: Seq<AttachmentView>, f: RowFilter) -> Seq<AttachmentView>
    decreases rows.len(),
{
    if rows.len() == 0 {
        Seq::empty()
    } else {
        let r = rows_selected(rows.drop_last(), f);
        if row_selected(rows.last(), f) { r.push(rows.last()) } else { r }
    }
}

/// Where a row goes in a list kept oldest first: after every row created
/// at the same time or earlier.
pub open spec fn oldest_first_pos(s: Seq<AttachmentView>, x: AttachmentView) -> int
    decreases s.len(),
{
    if s.len() == 0 {
        0
    } else if s[0].created_at > x.created_at {
        0
    } else {
        1 + oldest_first_pos(s.drop_first(), x)
    }
}

/// Rows oldest first, rows created at the same time in table order.
pub open spec fn oldest_first(s: Seq<AttachmentView>) -> Seq<AttachmentView>
    decreases s.len(),
{
    if s.len() == 0 {
        Seq::empty()
    } else {
        let r = oldest_first(s.drop_last());
        r.insert(oldest_first_pos(r, s.last()), s.last())
    }
}

proof fn lemma_oldest_first_pos(s: Seq<AttachmentView>, x: AttachmentView)
    ensures
        0 <= oldest_first_pos(s, x) <= s.len(),
        forall|j: int| 0 <= j < oldest_first_pos(s, x) ==> (#[trigger] s[j]).created_at <= x.created_at,
        oldest_first_pos(s, x) < s.len() ==> s[oldest_first_pos(s, x)].created_at > x.created_at,
    decreases s.len(),
{
    if s.len() > 0 && s[0].created_at <= x.created_at {
        lemma_oldest_first_pos(s.drop_first(), x);
        assert forall|j: int| 0 <= j < oldest_first_pos(s, x) implies (#[trigger] s[j]).created_at <= x.created_at by {
            if j > 0 {
                assert(s[j] == s.drop_first()[j - 1]);
            }
        }
    }
}

proof fn lemma_oldest_first_pos_is(s: Seq<AttachmentView>, x: AttachmentView, p: int)
    requires
        0 <= p <= s.len(),
        forall|j: int| 0 <= j < p ==> (#[trigger] s[j]).created_at <= x.created_at,
        p < s.len() ==> s[p].created_at > x.created_at,
    ensures
        oldest_first_pos(s, x) == p,
    decreases p,
{
    if p > 0 {
        assert(s[0].created_at <= x.created_at);
        assert forall|j: int| 0 <= j < p - 1 implies (#[trigger] s.drop_first()[j]).created_at <= x.created_at by {
            assert(s.drop_first()[j] == s[j + 1]);
        }
        lemma_oldest_first_pos_is(s.drop_first(), x, p - 1);
    }
}

/// Rows put oldest first are ordered by creation time, earliest first.
pub proof fn lemma_oldest_first_sorted(s: Seq<AttachmentView>)
    ensures
        oldest_first(s).len() == s.len(),
        forall|i: int, j: int| 0 <= i < j < s.len()
            ==> (#[trigger] oldest_first(s)[i]).created_at <= (#[trigger] oldest_first(s)[j]).created_at,
    decreases s.len(),
{
    if s.len() > 0 {
        let r = oldest_first(s.drop_last());
        let x = s.last();
        lemma_oldest_first_sorted(s.drop_last());
        lemma_oldest_first_pos(r, x);
        let p = oldest_first_pos(r, x);
        let t = r.insert(p, x);
        r.insert_ensures(p, x);
        assert(oldest_first(s) == t);
        assert forall|i: int, j: int| 0 <= i < j < t.len() implies (#[trigger] t[i]).created_at <= (#[trigger] t[j]).created_at by {
            if j < p {
                assert(t[i] == r[i] && t[j] == r[j]);
            } else if j == p {
                assert(t[i] == r[i]);
            } else if i < p {
                assert(t[i] == r[i] && t[j] == r[j - 1]);
            } else if i == p {
                assert(t[j] == r[j - 1]);
                if j - 1 > p { assert(r[p].created_at <= r[j - 1].created_at); }
            } else {
                assert(t[i] == r[i - 1] && t[j] == r[j - 1]);
            }
        }
    }
}

/// The harvest of a prefix of the rows is at most that of all of them.
proof fn lemma_harvest_grows(rows: Seq<AttachmentView>, cs: Seq<(i64, [u8; 32])>, i: int)
    requires
        0 <= i <= rows.len(),
    ensures
        purged_harvest(rows.take(i), cs).0 <= purged_harvest(rows, cs).0,
        purged_harvest(rows.take(i), cs).1 <= purged_harvest(rows, cs).1,
    decreases rows.len() - i,
{
    if i < rows.len() {
        lemma_harvest_grows(rows, cs, i + 1);
        assert(rows.take(i + 1).drop_last() =~= rows.take(i));
    } else {
        assert(rows.take(i) =~= rows);
    }
}

proof fn lemma_sorted_views(v: Seq<Attachment>, s: Seq<AttachmentView>)
    requires
        attachment_views(v) == oldest_first(s),
    ensures
        forall|i: int, j: int| 0 <= i < j < v.len() ==> (#[trigger] v[i]).created_at <= (#[trigger] v[j]).created_at,
{
    lemma_oldest_first_sorted(s);
    assert forall|i: int, j: int| 0 <= i < j < v.len() implies (#[trigger] v[i]).created_at <= (#[trigger] v[j]).created_at by {
        assert(attachment_views(v)[i] == v[i]@);
        assert(attachment_views(v)[j] == v[j]@);
    }
}

/// How many rows have a status.
pub open spec fn count_status(rows: Seq<AttachmentView>, st: AttachmentStatus) -> nat
    decreases rows.len(),
{
    if rows.len() == 0 {
        0
    } else {
        count_status(rows.drop_last(), st) + if rows.last().status == st { 1nat } else { 0nat }
    }
}

/// How many distinct file hashes the rows have.
pub open spec fn distinct_hashes(rows: Seq<AttachmentView>) -> nat
    decreases rows.len(),
{
    if rows.len() == 0 {
        0
    } else {
        let r = rows.drop_last();
        distinct_hashes(r) + if exists|j: int| 0 <= j < r.len() && r[j].file_hash == rows.last().file_hash { 0nat } else { 1nat }
    }
}

/// A size as the table stores it: a signed 64-bit number.
pub open spec fn stored_size(u: u64) -> int {
    if u <= i64::MAX { u as int } else { u - 0x1_0000_0000_0000_0000 }
}

/// The sum of the stored sizes taken in table order, or nothing when a
/// partial sum leaves the signed 64-bit range.
pub open spec fn size_sum(rows: Seq<AttachmentView>) -> Option<int>
    decreases rows.len(),
{
    if rows.len() == 0 {
        Some(0)
    } else {
        match size_sum(rows.drop_last()) {
            Some(t) => {
                let n = t + stored_size(rows.last().size);
                if i64::MIN <= n <= i64::MAX { Some(n) } else { None }
            },
            None => None,
        }
    }
}

/// The total size the statistics give: the sum of the stored sizes read
/// back as unsigned, or 0 when the table is empty or the sum overflows.
pub open spec fn total_size_of(rows: Seq<AttachmentView>) -> u64 {
    if rows.len() == 0 {
        0
    } else {
        match size_sum(rows) {
            Some(t) => if t >= 0 { t as u64 } else { (t + 0x1_0000_0000_0000_0000) as u64 },
            None => 0,
        }
    }
}

/// What collecting the purged rows finds, in table order: how many
/// (row, chunk) pairs they make (a row without chunks counts once), the
/// space their sizes account for over those pairs, and their chunks.
pub open spec fn purged_harvest(rows: Seq<AttachmentView>, chunks: Seq<(i64, [u8; 32])>) -> (nat, nat, Seq<[u8; 32]>)
    decreases rows.len(),
{
    if rows.len() == 0 {
        (0, 0, Seq::empty())
    } else {
        let (n, space, ids) = purged_harvest(rows.drop_last(), chunks);
        let a = rows.last();
        if a.status == AttachmentStatus::Purged {
            let cs = chunks_of(chunks, a.id);
            let k: nat = if cs.len() == 0 { 1 } else { cs.len() };
            (n + k, space + k * (a.size as nat), ids + cs)
        } else {
            (n, space, ids)
        }
    }
}

/// The rows that are not purged, in table order.
pub open spec fn unpurged(rows: Seq<AttachmentView>) -> Seq<AttachmentView>
    decreases rows.len(),
{
    if rows.len() == 0 {
        Seq::empty()
    } else {
        let r = unpurged(rows.drop_last());
        if rows.last().status == AttachmentStatus::Purged { r } else { r.push(rows.last()) }
    }
}

/// A copy of an attachment.
fn copy_attachment(a: &Attachment) -> (r: Attachment)
    ensures
        r@ == a@,
{
    Attachment {
        id: a.id,
        message_id: MessageId(a.message_id.0),
        filename: copy_string(&a.filename),
        size: a.size,
        file_hash: a.file_hash,
        mime_type: match &a.mime_type {
            Some(m) => Some(copy_string(m)),
            None => None,
        },
        status: a.status,
        created_at: a.created_at,
        last_accessed: a.last_accessed,
    }
}

impl AttachmentStore {
    /// An empty table.
    pub fn new() -> (r: Self)
        ensures
            r@.rows.len() == 0,
            r@.chunks.len() == 0,
            r@.last_id == 0,
    {
        let r = AttachmentStore { rows: Vec::new(), chunks: Vec::new(), last_id: 0 };
        assert(r@.rows =~= Seq::<AttachmentView>::empty());
        r
    }

    /// Stores an attachment of a message, active and created at `now`,
    /// with its chunks in order; gives its id, the one after the last
    /// handed out.
    pub fn store_attachment_at(
        &mut self,
        message_id: &MessageId,
        filename: &str,
        size: u64,
        file_hash: &[u8; 32],
        mime_type: Option<String>,
        chunk_ids: &Vec<[u8; 32]>,
        now: i64,
    ) -> (r: Result<i64, AttachmentError>)
        ensures
            old(self)@.last_id == i64::MAX ==> r == Err::<i64, AttachmentError>(AttachmentError::IdsExhausted)
                && final(self)@ == old(self)@,
            old(self)@.last_id < i64::MAX ==> {
                &&& r == Ok::<i64, AttachmentError>((old(self)@.last_id + 1) as i64)
                &&& final(self)@.last_id == old(self)@.last_id + 1
                &&& final(self)@.rows == old(self)@.rows.push(AttachmentView {
                    id: (old(self)@.last_id + 1) as i64,
                    message_id: message_id.0,
                    filename: filename@,
                    size,
                    file_hash: *file_hash,
                    mime_type: match mime_type {
                        Some(m) => Some(m@),
                        None => None,
                    },
                    status: AttachmentStatus::Active,
                    created_at: now,
                    last_accessed: None,
                })
                &&& final(self)@.chunks == old(self)@.chunks + Seq::new(chunk_ids@.len(), |i: int| ((old(self)@.last_id + 1) as i64, chunk_ids@[i]))
            },
    {
        if self.last_id == i64::MAX {
            return Err(AttachmentError::IdsExhausted);
        }
        let id = self.last_id + 1;
        let row = Attachment {
            id,
            message_id: MessageId(message_id.0),
            filename: filename.to_string(),
            size,
            file_hash: *file_hash,
            mime_type,
            status: AttachmentStatus::Active,
            created_at: now,
            last_accessed: None,
        };
        let ghost rows0 = self.rows@;
        let ghost rv = row@;
        self.rows.push(row);
        proof { assert(attachment_views(self.rows@) =~= attachment_views(rows0).push(rv)); }
        let ghost c0 = self.chunks@;
        let mut i: usize = 0;
        while i < chunk_ids.len()
            invariant
                i <= chunk_ids@.len(),
                self.chunks@ == c0 + Seq::new(i as nat, |k: int| (id, chunk_ids@[k])),
                attachment_views(self.rows@) == attachment_views(rows0).push(rv),
                self.last_id == old(self).last_id,
            decreases chunk_ids@.len() - i,
        {
            self.chunks.push((id, chunk_ids[i]));
            proof {
                assert(self.chunks@ =~= c0 + Seq::new((i + 1) as nat, |k: int| (id, chunk_ids@[k])));
            }
            i = i + 1;
        }
        self.last_id = id;
        Ok(id)
    }

    /// Stores an attachment now; see [`AttachmentStore::store_attachment_at`].
    pub fn store_attachment(
        &mut self,
        message_id: &MessageId,
        filename: &str,
        size: u64,
        file_hash: &[u8; 32],
        mime_type: Option<String>,
        chunk_ids: &Vec<[u8; 32]>,
    ) -> (r: Result<i64, AttachmentError>)
        ensures
            old(self)@.last_id == i64::MAX ==> r == Err::<i64, AttachmentError>(AttachmentError::IdsExhausted)
                && final(self)@ == old(self)@,
            old(self)@.last_id < i64::MAX ==> {
                &&& r == Ok::<i64, AttachmentError>((old(self)@.last_id + 1) as i64)
                &&& final(self)@.last_id == old(self)@.last_id + 1
                &&& final(self)@.rows.len() == old(self)@.rows.len() + 1
                &&& final(self)@.rows.drop_last() == old(self)@.rows
                &&& final(self)@.rows.last().id == old(self)@.last_id + 1
                &&& final(self)@.rows.last().filename == filename@
                &&& final(self)@.rows.last().status == AttachmentStatus::Active
                &&& final(self)@.chunks == old(self)@.chunks + Seq::new(chunk_ids@.len(), |i: int| ((old(self)@.last_id + 1) as i64, chunk_ids@[i]))
            },
    {
        let now = crate::clock::utc_now_ms() / 1000;
        let r = self.store_attachment_at(message_id, filename, size, file_hash, mime_type, chunk_ids, now);
        proof {
            if old(self)@.last_id < i64::MAX {
                assert(self@.rows.drop_last() =~= old(self)@.rows);
            }
        }
        r
    }

    /// Records that an attachment was read now.
    pub fn update_attachment_access_time(&mut self, id: i64)
        ensures
            final(self)@.chunks == old(self)@.chunks,
            final(self)@.last_id == old(self)@.last_id,
            final(self)@.rows.len() == old(self)@.rows.len(),
            forall|k: int| 0 <= k < old(self)@.rows.len() && old(self)@.rows[k].id != id
                ==> #[trigger] final(self)@.rows[k] == old(self)@.rows[k],
            forall|k: int| 0 <= k < old(self)@.rows.len() && old(self)@.rows[k].id == id
                ==> (#[trigger] final(self)@.rows[k]).last_accessed is Some,
    {
        let now = crate::clock::utc_now_ms() / 1000;
        self.update_attachment_access_time_at(id, now);
    }

    /// The attachment with an id.
    pub fn get_attachment_by_id(&self, id: i64) -> (r: Option<Attachment>)
        ensures
            match r {
                Some(a) => row_with_id(self@.rows, id) == Some(a@),
                None => row_with_id(self@.rows, id) is None,
            },
    {
        let ghost rows = self@.rows;
        proof { assert(rows.skip(0) =~= rows); }
        let mut i: usize = 0;
        while i < self.rows.len()
            invariant
                i <= self.rows@.len(),
                rows == self@.rows,
                row_with_id(rows, id) == row_with_id(rows.skip(i as int), id),
            decreases self.rows@.len() - i,
        {
            proof {
                assert(rows.skip(i as int).drop_first() =~= rows.skip(i + 1));
                assert(rows.skip(i as int)[0] == rows[i as int]);
            }
            if self.rows[i].id == id {
                return Some(copy_attachment(&self.rows[i]));
            }
            i = i + 1;
        }
        proof { assert(rows.skip(i as int) =~= Seq::<AttachmentView>::empty()); }
        None
    }

    /// The chunks of an attachment, in order.
    pub fn get_attachment_chunks(&self, id: i64) -> (r: Vec<[u8; 32]>)
        ensures
            r@ == chunks_of(self@.chunks, id),
    {
        let mut r: Vec<[u8; 32]> = Vec::new();
        let mut i: usize = 0;
        while i < self.chunks.len()
            invariant
                i <= self.chunks@.len(),
                r@ == chunks_of(self.chunks@.take(i as int), id),
            decreases self.chunks@.len() - i,
        {
            proof {
                assert(self.chunks@.take(i + 1).drop_last() =~= self.chunks@.take(i as int));
                assert(self.chunks@.take(i + 1).last() == self.chunks@[i as int]);
            }
            if self.chunks[i].0 == id {
                r.push(self.chunks[i].1);
            }
            i = i + 1;
        }
        proof { assert(self.chunks@.take(self.chunks@.len() as int) =~= self.chunks@); }
        r
    }

    /// The rows a query asks for, oldest first.
    fn select(&self, f: RowFilter) -> (r: Vec<Attachment>)
        ensures
            attachment_views(r@) == oldest_first(rows_selected(self@.rows, f)),
    {
        let ghost rows = self@.rows;
        let mut acc: Vec<Attachment> = Vec::new();
        let mut i: usize = 0;
        while i < self.rows.len()
            invariant
                i <= self.rows@.len(),
                rows == self@.rows,
                attachment_views(acc@) == oldest_first(rows_selected(rows.take(i as int), f)),
            decreases self.rows@.len() - i,
        {
            proof {
                assert(rows.take(i + 1).drop_last() =~= rows.take(i as int));
                assert(rows.take(i + 1).last() == rows[i as int]);
            }
            let row = &self.rows[i];
            let selected = match f {
                RowFilter::All => true,
                RowFilter::Message(m) => crate::events::hash_eq(&row.message_id.0, &m),
                RowFilter::FileHash(h) => crate::events::hash_eq(&row.file_hash, &h),
            };
            if selected {
                let ghost av = attachment_views(acc@);
                let mut p: usize = 0;
                while p < acc.len() && acc[p].created_at <= row.created_at
                    invariant
                        p <= acc@.len(),
                        av == attachment_views(acc@),
                        forall|j: int| 0 <= j < p ==> (#[trigger] av[j]).created_at <= row.created_at,
                    decreases acc@.len() - p,
                {
                    p = p + 1;
                }
                proof {
                    lemma_oldest_first_pos_is(av, row@, p as int);
                    assert(rows_selected(rows.take(i + 1), f).drop_last() =~= rows_selected(rows.take(i as int), f));
                }
                acc.insert(p, copy_attachment(row));
                proof {
                    av.insert_ensures(p as int, row@);
                    assert(attachment_views(acc@) =~= av.insert(p as int, row@));
                }
            }
            i = i + 1;
        }
        proof { assert(rows.take(rows.len() as int) =~= rows); }
        acc
    }

    /// Every attachment, oldest first.
    pub fn get_all_attachments(&self) -> (r: Vec<Attachment>)
        ensures
            attachment_views(r@) == oldest_first(rows_selected(self@.rows, RowFilter::All)),
            forall|i: int, j: int| 0 <= i < j < r@.len() ==> (#[trigger] r@[i]).created_at <= (#[trigger] r@[j]).created_at,
    {
        let r = self.select(RowFilter::All);
        proof { lemma_sorted_views(r@, rows_selected(self@.rows, RowFilter::All)); }
        r
    }

    /// The attachments of a message, oldest first.
    pub fn get_attachments_for_message(&self, message_id: &MessageId) -> (r: Vec<Attachment>)
        ensures
            attachment_views(r@) == oldest_first(rows_selected(self@.rows, RowFilter::Message(message_id.0))),
            forall|i: int, j: int| 0 <= i < j < r@.len() ==> (#[trigger] r@[i]).created_at <= (#[trigger] r@[j]).created_at,
    {
        let r = self.select(RowFilter::Message(message_id.0));
        proof { lemma_sorted_views(r@, rows_selected(self@.rows, RowFilter::Message(message_id.0))); }
        r
    }

    /// The attachments of the same file content, oldest first.
    pub fn get_attachments_by_file_hash(&self, file_hash: &[u8; 32]) -> (r: Vec<Attachment>)
        ensures
            attachment_views(r@) == oldest_first(rows_selected(self@.rows, RowFilter::FileHash(*file_hash))),
            forall|i: int, j: int| 0 <= i < j < r@.len() ==> (#[trigger] r@[i]).created_at <= (#[trigger] r@[j]).created_at,
    {
        let r = self.select(RowFilter::FileHash(*file_hash));
        proof { lemma_sorted_views(r@, rows_selected(self@.rows, RowFilter::FileHash(*file_hash))); }
        r
    }

    /// Counts of the table: rows in all and by status, their total size
    /// (see [`total_size_of`]) and the number of distinct files.
    pub fn get_attachment_stats(&self) -> (r: AttachmentStats)
        ensures
            r.total_attachments == self@.rows.len(),
            r.active_attachments == count_status(self@.rows, AttachmentStatus::Active),
            r.deleted_attachments == count_status(self@.rows, AttachmentStatus::Deleted),
            r.purged_attachments == count_status(self@.rows, AttachmentStatus::Purged),
            r.total_size == total_size_of(self@.rows),
            r.unique_files == distinct_hashes(self@.rows),
    {
        let ghost rows = self@.rows;
        let mut active: usize = 0;
        let mut deleted: usize = 0;
        let mut purged: usize = 0;
        let mut unique: usize = 0;
        let mut sum: i128 = 0;
        let mut overflowed = false;
        let mut i: usize = 0;
        while i < self.rows.len()
            invariant
                i <= self.rows@.len(),
                rows == self@.rows,
                active == count_status(rows.take(i as int), AttachmentStatus::Active),
                deleted == count_status(rows.take(i as int), AttachmentStatus::Deleted),
                purged == count_status(rows.take(i as int), AttachmentStatus::Purged),
                unique == distinct_hashes(rows.take(i as int)),
                active <= i && deleted <= i && purged <= i && unique <= i,
                overflowed == (size_sum(rows.take(i as int)) is None),
                !overflowed ==> size_sum(rows.take(i as int)) == Some(sum as int),
                !overflowed ==> i64::MIN <= sum <= i64::MAX,
            decreases self.rows@.len() - i,
        {
            let ghost t0 = rows.take(i as int);
            proof {
                assert(rows.take(i + 1).drop_last() =~= t0);
                assert(rows.take(i + 1).last() == rows[i as int]);
            }
            let row = &self.rows[i];
            match row.status {
                AttachmentStatus::Active => { active = active + 1; }
                AttachmentStatus::Deleted => { deleted = deleted + 1; }
                AttachmentStatus::Purged => { purged = purged + 1; }
            }
            let mut seen = false;
            let mut j: usize = 0;
            while j < i
                invariant
                    j <= i,
                    i < self.rows@.len(),
                    rows == self@.rows,
                    t0 == rows.take(i as int),
                    seen == (exists|q: int| 0 <= q < j && t0[q].file_hash == rows[i as int].file_hash),
                decreases i - j,
            {
                if crate::events::hash_eq(&self.rows[j].file_hash, &self.rows[i].file_hash) {
                    seen = true;
                }
                proof {
                    assert(t0[j as int] == rows[j as int]);
                    if seen && !(exists|q: int| 0 <= q < j && t0[q].file_hash == rows[i as int].file_hash) {
                        assert(t0[j as int].file_hash == rows[i as int].file_hash);
                    }
                }
                j = j + 1;
            }
            if !seen {
                unique = unique + 1;
            }
            if !overflowed {
                let stored: i128 = if row.size <= 9_223_372_036_854_775_807u64 {
                    row.size as i128
                } else {
                    (row.size as i128) - 18_446_744_073_709_551_616i128
                };
                let next = sum + stored;
                if next < -9_223_372_036_854_775_808i128 || next > 9_223_372_036_854_775_807i128 {
                    overflowed = true;
                } else {
                    sum = next;
                }
            }
            i = i + 1;
        }
        proof { assert(rows.take(rows.len() as int) =~= rows); }
        let total: u64 = if self.rows.len() == 0 || overflowed {
            0
        } else if sum >= 0 {
            sum as u64
        } else {
            (sum + 18_446_744_073_709_551_616i128) as u64
        };
        AttachmentStats {
            total_attachments: self.rows.len(),
            active_attachments: active,
            deleted_attachments: deleted,
            purged_attachments: purged,
            total_size: total,
            unique_files: unique,
        }
    }

    /// Drops the purged rows (their chunk lists stay). Gives how many
    /// (row, chunk) pairs they made and the space their sizes account for
    /// over those pairs (see [`purged_harvest`]), no chunk removed yet, and
    /// the chunks whose files are to be removed.
    pub fn garbage_collect_attachments(&mut self) -> (r: (GarbageCollectionStats, Vec<[u8; 32]>))
        requires
            purged_harvest(old(self)@.rows, old(self)@.chunks).0 <= usize::MAX,
            purged_harvest(old(self)@.rows, old(self)@.chunks).1 <= u64::MAX,
        ensures
            r.0.chunks_removed == 0,
            r.0.attachments_removed == purged_harvest(old(self)@.rows, old(self)@.chunks).0,
            r.0.space_freed == purged_harvest(old(self)@.rows, old(self)@.chunks).1,
            r.1@ == purged_harvest(old(self)@.rows, old(self)@.chunks).2,
            final(self)@.rows == unpurged(old(self)@.rows),
            final(self)@.chunks == old(self)@.chunks,
            final(self)@.last_id == old(self)@.last_id,
    {
        let ghost rows = self@.rows;
        let ghost cs = self@.chunks;
        let mut removed: usize = 0;
        let mut space: u64 = 0;
        let mut ids: Vec<[u8; 32]> = Vec::new();
        let mut kept: Vec<Attachment> = Vec::new();
        let mut i: usize = 0;
        while i < self.rows.len()
            invariant
                i <= self.rows@.len(),
                rows == self@.rows,
                cs == self@.chunks,
                purged_harvest(rows, cs).0 <= usize::MAX,
                purged_harvest(rows, cs).1 <= u64::MAX,
                removed == purged_harvest(rows.take(i as int), cs).0,
                space == purged_harvest(rows.take(i as int), cs).1,
                ids@ == purged_harvest(rows.take(i as int), cs).2,
                attachment_views(kept@) == unpurged(rows.take(i as int)),
            decreases self.rows@.len() - i,
        {
            proof {
                assert(rows.take(i + 1).drop_last() =~= rows.take(i as int));
                assert(rows.take(i + 1).last() == rows[i as int]);
                lemma_harvest_grows(rows, cs, i + 1);
            }
            let row = &self.rows[i];
            match row.status {
                AttachmentStatus::Purged => {
                    let its = self.get_attachment_chunks(row.id);
                    let k: usize = if its.len() == 0 { 1 } else { its.len() };
                    proof {
                        assert(k * row.size <= u64::MAX) by {
                            assert(purged_harvest(rows.take(i + 1), cs).1 == space + k * row.size);
                        }
                    }
                    removed = removed + k;
                    space = space + (k as u64) * row.size;
                    let mut q: usize = 0;
                    let ghost ids0 = ids@;
                    while q < its.len()
                        invariant
                            q <= its@.len(),
                            ids@ == ids0 + its@.take(q as int),
                        decreases its@.len() - q,
                    {
                        ids.push(its[q]);
                        proof { assert(ids@ =~= ids0 + its@.take(q + 1)); }
                        q = q + 1;
                    }
                    proof { assert(its@.take(its@.len() as int) =~= its@); }
                }
                _ => {
                    let ghost kv = attachment_views(kept@);
                    kept.push(copy_attachment(row));
                    proof { assert(attachment_views(kept@) =~= kv.push(rows[i as int])); }
                }
            }
            i = i + 1;
        }
        proof { assert(rows.take(rows.len() as int) =~= rows); }
        self.rows = kept;
        (GarbageCollectionStats { chunks_removed: 0, attachments_removed: removed, space_freed: space }, ids)
    }

    /// Sets the status of the attachment with an id.
    fn set_status(&mut self, id: i64, status: AttachmentStatus)
        ensures
            final(self)@.chunks == old(self)@.chunks,
            final(self)@.last_id == old(self)@.last_id,
            final(self)@.rows == rows_where_id(old(self)@.rows, id, |a: AttachmentView| AttachmentView { status, ..a }),
    {
        let ghost before = self@.rows;
        let mut i: usize = 0;
        while i < self.rows.len()
            invariant
                i <= self.rows@.len(),
                self.rows@.len() == before.len(),
                self@.chunks == old(self)@.chunks,
                self@.last_id == old(self)@.last_id,
                forall|k: int| 0 <= k < i ==> #[trigger] self@.rows[k]
                    == (if before[k].id == id { AttachmentView { status, ..before[k] } } else { before[k] }),
                forall|k: int| i <= k < before.len() ==> #[trigger] self@.rows[k] == before[k],
            decreases self.rows@.len() - i,
        {
            proof { assert(self@.rows[i as int] == before[i as int]); }
            if self.rows[i].id == id {
                let mut a = copy_attachment(&self.rows[i]);
                a.status = status;
                let ghost r0 = self@.rows;
                let ghost av = a@;
                self.rows.set(i, a);
                proof {
                    assert forall|k: int| 0 <= k < r0.len() && k != i implies #[trigger] self@.rows[k] == r0[k] by {}
                    assert(self@.rows[i as int] == av);
                }
            }
            i = i + 1;
        }
        proof {
            assert(self@.rows =~= rows_where_id(before, id, |a: AttachmentView| AttachmentView { status, ..a }));
        }
    }

    /// Marks an attachment deleted.
    pub fn delete_attachment(&mut self, id: i64)
        ensures
            final(self)@.chunks == old(self)@.chunks,
            final(self)@.last_id == old(self)@.last_id,
            final(self)@.rows == rows_where_id(old(self)@.rows, id,
                |a: AttachmentView| AttachmentView { status: AttachmentStatus::Deleted, ..a }),
    {
        self.set_status(id, AttachmentStatus::Deleted);
    }

    /// Marks an attachment purged and drops its chunk list.
    pub fn purge_attachment(&mut self, id: i64)
        ensures
            final(self)@.last_id == old(self)@.last_id,
            final(self)@.rows == rows_where_id(old(self)@.rows, id,
                |a: AttachmentView| AttachmentView { status: AttachmentStatus::Purged, ..a }),
            final(self)@.chunks == chunks_without(old(self)@.chunks, id),
    {
        self.set_status(id, AttachmentStatus::Purged);
        let ghost before = self.chunks@;
        let mut kept: Vec<(i64, [u8; 32])> = Vec::new();
        let mut i: usize = 0;
        while i < self.chunks.len()
            invariant
                i <= self.chunks@.len(),
                before == self.chunks@,
                kept@ == chunks_without(before.take(i as int), id),
            decreases self.chunks@.len() - i,
        {
            proof {
                assert(before.take(i + 1).drop_last() =~= before.take(i as int));
                assert(before.take(i + 1).last() == before[i as int]);
            }
            if self.chunks[i].0 != id {
                kept.push(self.chunks[i]);
            }
            i = i + 1;
        }
        proof { assert(before.take(before.len() as int) =~= before); }
        self.chunks = kept;
    }

    /// Records that an attachment was read at `now`.
    pub fn update_attachment_access_time_at(&mut self, id: i64, now: i64)
        ensures
            final(self)@.chunks == old(self)@.chunks,
            final(self)@.last_id == old(self)@.last_id,
            final(self)@.rows == rows_where_id(old(self)@.rows, id,
                |a: AttachmentView| AttachmentView { last_accessed: Some(now), ..a }),
    {
        let ghost before = self@.rows;
        let mut i: usize = 0;
        while i < self.rows.len()
            invariant
                i <= self.rows@.len(),
                self.rows@.len() == before.len(),
                self@.chunks == old(self)@.chunks,
                self@.last_id == old(self)@.last_id,
                forall|k: int| 0 <= k < i ==> #[trigger] self@.rows[k]
                    == (if before[k].id == id { AttachmentView { last_accessed: Some(now), ..before[k] } } else { before[k] }),
                forall|k: int| i <= k < before.len() ==> #[trigger] self@.rows[k] == before[k],
            decreases self.rows@.len() - i,
        {
            proof { assert(self@.rows[i as int] == before[i as int]); }
            if self.rows[i].id == id {
                let mut a = copy_attachment(&self.rows[i]);
                a.last_accessed = Some(now);
                let ghost r0 = self@.rows;
                let ghost av = a@;
                self.rows.set(i, a);
                proof {
                    assert forall|k: int| 0 <= k < r0.len() && k != i implies #[trigger] self@.rows[k] == r0[k] by {}
                    assert(self@.rows[i as int] == av);
                }
            }
            i = i + 1;
        }
        proof {
            assert(self@.rows =~= rows_where_id(before, id, |a: AttachmentView| AttachmentView { last_accessed: Some(now), ..a }));
        }
    }
}

} // verus!
