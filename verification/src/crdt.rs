//! Conflict resolution for messages.
//!
//! The operations on a message are put in a deterministic order, by
//! Lamport time and then by device key (stably, so operations with equal
//! keys keep the order they were given in), and folded into a state:
//! a purge removes the message for good, a deletion wins over edits, and
//! among edits the last write wins.

use vstd::prelude::*;
use crate::events::{copy_string, hash_eq, Op, OpView, OperationView};

verus! {

broadcast use {vstd::seq_lib::to_multiset_insert, vstd::seq_lib::to_multiset_contains};

/// The state of a message once its operations are resolved. Times are
/// Unix milliseconds.
#[derive(Debug)]
pub enum ResolvedMessageState {
    /// No operation creates the message.
    NotCreated,
    /// Created and not edited since.
    Created { body: String, created_at: i64 },
    /// Edited; the text is that of the winning edit.
    Edited { body: String, last_edited_at: i64 },
    /// Deleted.
    Deleted { deleted_at: i64 },
    /// Removed for good.
    Purged { purged_at: i64 },
}

/// The mathematical form of a [`ResolvedMessageState`].
pub enum ResolvedView {
    NotCreated,
    Created { body: Seq<char>, created_at: i64 },
    Edited { body: Seq<char>, last_edited_at: i64 },
    Deleted { deleted_at: i64 },
    Purged { purged_at: i64 },
}

impl View for ResolvedMessageState {
    type V = ResolvedView;

    open spec fn view(&self) -> ResolvedView {
        match self {
            ResolvedMessageState::NotCreated => ResolvedView::NotCreated,
            ResolvedMessageState::Created { body, created_at } => ResolvedView::Created { body: body@, created_at: *created_at },
            ResolvedMessageState::Edited { body, last_edited_at } => ResolvedView::Edited { body: body@, last_edited_at: *last_edited_at },
            ResolvedMessageState::Deleted { deleted_at } => ResolvedView::Deleted { deleted_at: *deleted_at },
            ResolvedMessageState::Purged { purged_at } => ResolvedView::Purged { purged_at: *purged_at },
        }
    }
}

/// Lexicographic order of two device keys.
pub open spec fn key_bytes_lt(a: [u8; 32], b: [u8; 32]) -> bool {
    exists|i: int| 0 <= i < 32 && a@.take(i) == b@.take(i) && #[trigger] a@[i] < b@[i]
}

/// The order of operations: by Lamport time, then by device key.
pub open spec fn op_before(a: OpView, b: OpView) -> bool {
    a.lamport < b.lamport || (a.lamport == b.lamport && key_bytes_lt(a.id.device_pubkey, b.id.device_pubkey))
}

/// Whether the first key is lexicographically smaller than the second.
pub fn key_less(a: &[u8; 32], b: &[u8; 32]) -> (r: bool)
    ensures
        r == key_bytes_lt(*a, *b),
{
    let mut i: usize = 0;
    while i < 32
        invariant
            i <= 32,
            a@.len() == 32,
            b@.len() == 32,
            a@.take(i as int) == b@.take(i as int),
        decreases 32 - i,
    {
        if a[i] != b[i] {
            proof {
                assert forall|j: int| 0 <= j < 32 && a@.take(j) == b@.take(j) && #[trigger] a@[j] < b@[j] implies j == i by {
                    if j > i {
                        assert(a@.take(j)[i as int] == b@.take(j)[i as int]);
                    } else if j < i {
                        assert(a@.take(i as int)[j] == b@.take(i as int)[j]);
                    }
                }
            }
            return a[i] < b[i];
        }
        proof {
            assert(a@.take(i as int + 1) =~= a@.take(i as int).push(a@[i as int]));
            assert(b@.take(i as int + 1) =~= b@.take(i as int).push(b@[i as int]));
        }
        i = i + 1;
    }
    proof {
        assert forall|j: int| 0 <= j < 32 && a@.take(j) == b@.take(j) implies !(#[trigger] a@[j] < b@[j]) by {
            assert(a@.take(32)[j] == b@.take(32)[j]);
        }
    }
    false
}

/// Whether operation `a` comes before operation `b`.
pub fn op_is_before(a: &Op, b: &Op) -> (r: bool)
    ensures
        r == op_before(a@, b@),
{
    if a.lamport < b.lamport {
        true
    } else if a.lamport == b.lamport {
        key_less(&a.id.device_pubkey, &b.id.device_pubkey)
    } else {
        false
    }
}

/// Where a stable insertion puts `x`: before the first element that `x`
/// comes before.
pub open spec fn insert_pos(s: Seq<OpView>, x: OpView) -> int
    decreases s.len(),
{
    if s.len() == 0 {
        0
    } else if op_before(x, s[0]) {
        0
    } else {
        1 + insert_pos(s.drop_first(), x)
    }
}

/// The operations in order: each inserted, in turn, after those it does
/// not come before.
pub open spec fn sort_ops(s: Seq<OpView>) -> Seq<OpView>
    decreases s.len(),
{
    if s.len() == 0 {
        Seq::empty()
    } else {
        let r = sort_ops(s.drop_last());
        r.insert(insert_pos(r, s.last()), s.last())
    }
}

proof fn lemma_insert_pos(s: Seq<OpView>, x: OpView, p: int)
    requires
        0 <= p <= s.len(),
        forall|j: int| 0 <= j < p ==> !op_before(x, #[trigger] s[j]),
        p < s.len() ==> op_before(x, s[p]),
    ensures
        insert_pos(s, x) == p,
    decreases p,
{
    if p > 0 {
        assert(!op_before(x, s[0]));
        assert forall|j: int| 0 <= j < p - 1 implies !op_before(x, #[trigger] s.drop_first()[j]) by {
            assert(s.drop_first()[j] == s[j + 1]);
        }
        lemma_insert_pos(s.drop_first(), x, p - 1);
    }
}

proof fn lemma_insert_pos_bound(s: Seq<OpView>, x: OpView)
    ensures
        0 <= insert_pos(s, x) <= s.len(),
    decreases s.len(),
{
    if s.len() > 0 {
        lemma_insert_pos_bound(s.drop_first(), x);
    }
}

proof fn lemma_sort_len(s: Seq<OpView>)
    ensures
        sort_ops(s).len() == s.len(),
        sort_ops(s).to_multiset() == s.to_multiset(),
    decreases s.len(),
{
    if s.len() > 0 {
        lemma_sort_len(s.drop_last());
        let r = sort_ops(s.drop_last());
        lemma_insert_pos_bound(r, s.last());
        assert(s.drop_last().push(s.last()) =~= s);
        vstd::seq_lib::to_multiset_build(s.drop_last(), s.last());
    }
}

/// Sorts operations (see [`sort_ops`]).
pub fn sort_operations<'a>(ops: &Vec<&'a Op>) -> (r: Vec<&'a Op>)
    ensures
        Seq::new(r@.len(), |i: int| r@[i]@) == sort_ops(Seq::new(ops@.len(), |i: int| ops@[i]@)),
{
    let ghost vs = Seq::new(ops@.len(), |i: int| ops@[i]@);
    let mut acc: Vec<&'a Op> = Vec::new();
    let mut i: usize = 0;
    while i < ops.len()
        invariant
            i <= ops@.len(),
            vs == Seq::new(ops@.len(), |i: int| ops@[i]@),
            Seq::new(acc@.len(), |j: int| acc@[j]@) == sort_ops(vs.take(i as int)),
        decreases ops@.len() - i,
    {
        let x = ops[i];
        let ghost av = Seq::new(acc@.len(), |j: int| acc@[j]@);
        let mut p: usize = 0;
        while p < acc.len() && !op_is_before(x, acc[p])
            invariant
                p <= acc@.len(),
                av == Seq::new(acc@.len(), |j: int| acc@[j]@),
                forall|j: int| 0 <= j < p ==> !op_before(x@, #[trigger] av[j]),
            decreases acc@.len() - p,
        {
            p = p + 1;
        }
        proof {
            lemma_insert_pos(av, x@, p as int);
            assert(vs.take(i as int + 1).drop_last() =~= vs.take(i as int));
            assert(vs.take(i as int + 1).last() == x@);
        }
        let ghost old_acc = acc@;
        acc.insert(p, x);
        proof {
            old_acc.insert_ensures(p as int, x);
            av.insert_ensures(p as int, x@);
            assert(Seq::new(acc@.len(), |j: int| acc@[j]@) =~= av.insert(p as int, x@));
        }
        i = i + 1;
    }
    proof { assert(vs.take(ops@.len() as int) =~= vs); }
    acc
}

/// The resolution of a prefix of the operations: the state, the key of the
/// last applied edit (or creation), and whether a deletion or a purge was
/// seen.
pub struct Resolution {
    pub state: ResolvedView,
    pub last_edit: Option<OpView>,
    pub deleted: bool,
    pub purged: bool,
}

/// Nothing resolved yet.
pub open spec fn initial_resolution() -> Resolution {
    Resolution { state: ResolvedView::NotCreated, last_edit: None, deleted: false, purged: false }
}

/// One operation applied to a resolution: a creation counts only for a
/// message not yet created; an edit counts unless the message is deleted
/// or purged, and only when it comes after the last edit; a deletion counts
/// unless the message is purged; a purge always counts.
pub open spec fn resolve_step(r: Resolution, op: OpView) -> Resolution {
    match op.operation {
        OperationView::CreateMessage { body, created_at, .. } =>
            if r.state is NotCreated {
                Resolution { state: ResolvedView::Created { body, created_at }, last_edit: Some(op), ..r }
            } else {
                r
            },
        OperationView::EditMessage { body, edited_at, .. } =>
            if !r.deleted && !r.purged && (match r.last_edit { Some(l) => op_before(l, op), None => true }) {
                Resolution { state: ResolvedView::Edited { body, last_edited_at: edited_at }, last_edit: Some(op), ..r }
            } else {
                r
            },
        OperationView::DeleteMessage { deleted_at, .. } =>
            if !r.purged {
                Resolution { state: ResolvedView::Deleted { deleted_at }, deleted: true, ..r }
            } else {
                r
            },
        OperationView::Purge { timestamp, .. } =>
            Resolution { state: ResolvedView::Purged { purged_at: timestamp }, purged: true, ..r },
        _ => r,
    }
}

/// The operations applied in turn.
pub open spec fn resolve_fold(ops: Seq<OpView>) -> Resolution
    decreases ops.len(),
{
    if ops.len() == 0 {
        initial_resolution()
    } else {
        resolve_step(resolve_fold(ops.drop_last()), ops.last())
    }
}

/// The state that the operations on a message resolve to.
pub open spec fn resolve_ops(ops: Seq<OpView>) -> ResolvedView {
    resolve_fold(sort_ops(ops)).state
}

/// Resolves the state of a message from all its operations.
pub fn crdt_resolve_message_conflicts(operations: &Vec<&Op>) -> (r: ResolvedMessageState)
    ensures
        r@ == resolve_ops(Seq::new(operations@.len(), |i: int| operations@[i]@)),
{
    let sorted = sort_operations(operations);
    let ghost sv = Seq::new(sorted@.len(), |i: int| sorted@[i]@);
    let mut state = ResolvedMessageState::NotCreated;
    let mut last_edit: Option<&Op> = None;
    let mut is_deleted = false;
    let mut is_purged = false;
    let mut i: usize = 0;
    proof { assert(sv.take(0) =~= Seq::<OpView>::empty()); }
    while i < sorted.len()
        invariant
            i <= sorted@.len(),
            sv == Seq::new(sorted@.len(), |i: int| sorted@[i]@),
            resolve_fold(sv.take(i as int)) == (Resolution {
                state: state@,
                last_edit: match last_edit { Some(o) => Some(o@), None => None },
                deleted: is_deleted,
                purged: is_purged,
            }),
        decreases sorted@.len() - i,
    {
        let op = sorted[i];
        proof {
            assert(sv.take(i as int + 1).drop_last() =~= sv.take(i as int));
            assert(sv.take(i as int + 1).last() == op@);
        }
        match &op.operation {
            crate::events::Operation::CreateMessage { body, created_at, .. } => {
                if let ResolvedMessageState::NotCreated = state {
                    state = ResolvedMessageState::Created { body: copy_string(body), created_at: *created_at };
                    last_edit = Some(op);
                }
            },
            crate::events::Operation::EditMessage { body, edited_at, .. } => {
                if !is_deleted && !is_purged {
                    let later = match last_edit {
                        Some(l) => op_is_before(l, op),
                        None => true,
                    };
                    if later {
                        state = ResolvedMessageState::Edited { body: copy_string(body), last_edited_at: *edited_at };
                        last_edit = Some(op);
                    }
                }
            },
            crate::events::Operation::DeleteMessage { deleted_at, .. } => {
                if !is_purged {
                    is_deleted = true;
                    state = ResolvedMessageState::Deleted { deleted_at: *deleted_at };
                }
            },
            crate::events::Operation::Purge { timestamp, .. } => {
                is_purged = true;
                state = ResolvedMessageState::Purged { purged_at: *timestamp };
            },
            _ => {},
        }
        i = i + 1;
    }
    proof { assert(sv.take(sorted@.len() as int) =~= sv); }
    state
}


/// Whether an operation is a purge.
pub open spec fn is_purge(op: OpView) -> bool {
    op.operation is Purge
}

/// Whether an operation is a deletion.
pub open spec fn is_delete(op: OpView) -> bool {
    op.operation is DeleteMessage
}

proof fn lemma_fold_purged(s: Seq<OpView>)
    requires
        exists|i: int| 0 <= i < s.len() && is_purge(#[trigger] s[i]),
    ensures
        resolve_fold(s).purged,
        resolve_fold(s).state is Purged,
    decreases s.len(),
{
    if !is_purge(s.last()) {
        let i = choose|i: int| 0 <= i < s.len() && is_purge(#[trigger] s[i]);
        assert(s.drop_last()[i] == s[i]);
        lemma_fold_purged(s.drop_last());
    }
}

proof fn lemma_fold_deleted(s: Seq<OpView>)
    requires
        exists|i: int| 0 <= i < s.len() && is_delete(#[trigger] s[i]),
        forall|i: int| 0 <= i < s.len() ==> !is_purge(#[trigger] s[i]),
    ensures
        resolve_fold(s).deleted,
        !resolve_fold(s).purged,
        resolve_fold(s).state is Deleted,
    decreases s.len(),
{
    lemma_fold_no_purge(s);
    if !is_delete(s.last()) {
        let i = choose|i: int| 0 <= i < s.len() && is_delete(#[trigger] s[i]);
        assert(s.drop_last()[i] == s[i]);
        assert forall|j: int| 0 <= j < s.drop_last().len() implies !is_purge(#[trigger] s.drop_last()[j]) by {
            assert(s.drop_last()[j] == s[j]);
        }
        lemma_fold_deleted(s.drop_last());
    }
}

proof fn lemma_fold_no_purge(s: Seq<OpView>)
    requires
        forall|i: int| 0 <= i < s.len() ==> !is_purge(#[trigger] s[i]),
    ensures
        !resolve_fold(s).purged,
    decreases s.len(),
{
    if s.len() > 0 {
        assert forall|j: int| 0 <= j < s.drop_last().len() implies !is_purge(#[trigger] s.drop_last()[j]) by {
            assert(s.drop_last()[j] == s[j]);
        }
        lemma_fold_no_purge(s.drop_last());
        assert(!is_purge(s[s.len() - 1]));
    }
}

proof fn lemma_sort_contains(s: Seq<OpView>, x: OpView)
    ensures
        s.contains(x) <==> sort_ops(s).contains(x),
{
    lemma_sort_len(s);
    assert(s.to_multiset().count(x) == sort_ops(s).to_multiset().count(x));
}

/// A purge wins over every other operation: once a message has a purge, it
/// resolves to purged, whatever else was done to it and in whatever order.
pub proof fn lemma_purge_overrides_all(ops: Seq<OpView>)
    requires
        exists|i: int| 0 <= i < ops.len() && is_purge(#[trigger] ops[i]),
    ensures
        resolve_ops(ops) is Purged,
{
    let i = choose|i: int| 0 <= i < ops.len() && is_purge(#[trigger] ops[i]);
    lemma_sort_contains(ops, ops[i]);
    let s = sort_ops(ops);
    let j = choose|j: int| 0 <= j < s.len() && s[j] == ops[i];
    assert(is_purge(s[j]));
    lemma_fold_purged(s);
}

/// Whether an operation acts on a message: a creation, an edit, a deletion
/// or a purge.
pub open spec fn is_message_op(op: OpView) -> bool {
    ||| op.operation is CreateMessage
    ||| op.operation is EditMessage
    ||| op.operation is DeleteMessage
    ||| op.operation is Purge
}

/// A step either leaves a resolution as it was or gives it a state other
/// than not created.
proof fn lemma_step_keeps_or_creates(r: Resolution, op: OpView)
    ensures
        resolve_step(r, op) == r || !(resolve_step(r, op).state is NotCreated),
{
}

/// While nothing is created, no edit, deletion or purge has counted.
proof fn lemma_fold_not_created(s: Seq<OpView>)
    ensures
        resolve_fold(s).state is NotCreated ==> resolve_fold(s) == initial_resolution(),
    decreases s.len(),
{
    if s.len() > 0 {
        lemma_fold_not_created(s.drop_last());
        lemma_step_keeps_or_creates(resolve_fold(s.drop_last()), s.last());
    }
}

proof fn lemma_fold_created(s: Seq<OpView>)
    requires
        exists|i: int| 0 <= i < s.len() && is_message_op(#[trigger] s[i]),
    ensures
        !(resolve_fold(s).state is NotCreated),
    decreases s.len(),
{
    let prev = resolve_fold(s.drop_last());
    lemma_fold_not_created(s.drop_last());
    lemma_step_keeps_or_creates(prev, s.last());
    if !is_message_op(s.last()) {
        let i = choose|i: int| 0 <= i < s.len() && is_message_op(#[trigger] s[i]);
        assert(s.drop_last()[i] == s[i]);
        lemma_fold_created(s.drop_last());
    }
}

/// A message with any creation, edit, deletion or purge among its
/// operations is never left not created, in whatever order they came.
pub proof fn lemma_message_ops_create(ops: Seq<OpView>)
    requires
        exists|i: int| 0 <= i < ops.len() && is_message_op(#[trigger] ops[i]),
    ensures
        !(resolve_ops(ops) is NotCreated),
{
    let i = choose|i: int| 0 <= i < ops.len() && is_message_op(#[trigger] ops[i]);
    lemma_sort_contains(ops, ops[i]);
    let s = sort_ops(ops);
    let j = choose|j: int| 0 <= j < s.len() && s[j] == ops[i];
    assert(is_message_op(s[j]));
    lemma_fold_created(s);
}

/// Folding creations alone leaves the message created by the first of them.
proof fn lemma_fold_creations(s: Seq<OpView>)
    requires
        s.len() >= 1,
        forall|i: int| 0 <= i < s.len() ==> (#[trigger] s[i]).operation is CreateMessage,
    ensures
        s[0].operation matches OperationView::CreateMessage { body, created_at, .. }
            && resolve_fold(s).state == (ResolvedView::Created { body, created_at }),
    decreases s.len(),
{
    if s.len() == 1 {
        assert(s.drop_last() =~= Seq::<OpView>::empty());
    } else {
        let p = s.drop_last();
        assert forall|i: int| 0 <= i < p.len() implies (#[trigger] p[i]).operation is CreateMessage by {
            assert(p[i] == s[i]);
        }
        lemma_fold_creations(p);
        assert(p[0] == s[0]);
        assert(s.last().operation is CreateMessage);
    }
}

/// Among creations, the first wins: when all of a message's operations are
/// creations with distinct ordering keys, it resolves to created with the
/// text and time of the creation that comes before every other, in
/// whatever order they came.
pub proof fn lemma_first_creation_wins(ops: Seq<OpView>, c: OpView)
    requires
        distinct_keys(ops),
        forall|i: int| 0 <= i < ops.len() ==> (#[trigger] ops[i]).operation is CreateMessage,
        ops.contains(c),
        forall|i: int| 0 <= i < ops.len() && ops[i] != c ==> op_before(c, #[trigger] ops[i]),
    ensures
        c.operation matches OperationView::CreateMessage { body, created_at, .. }
            && resolve_ops(ops) == (ResolvedView::Created { body, created_at }),
{
    let s = sort_ops(ops);
    lemma_sort_strict(ops);
    lemma_sort_len(ops);
    lemma_sort_contains(ops, c);
    assert(s.contains(c));
    let m = choose|m: int| 0 <= m < s.len() && s[m] == c;
    assert forall|i: int| 0 <= i < s.len() implies (#[trigger] s[i]).operation is CreateMessage by {
        lemma_sort_contains(ops, s[i]);
        assert(s.contains(s[i]));
        let k = choose|k: int| 0 <= k < ops.len() && ops[k] == s[i];
        assert(ops[k].operation is CreateMessage);
    }
    if m > 0 {
        assert(op_before(s[0], s[m]));
        lemma_sort_contains(ops, s[0]);
        assert(s.contains(s[0]));
        let k = choose|k: int| 0 <= k < ops.len() && ops[k] == s[0];
        lemma_op_before_order(c, s[0], c);
        if s[0] != c {
            assert(op_before(c, ops[k]));
        }
        assert(false);
    }
    lemma_fold_creations(s);
}

/// A deletion wins over edits and creations: a message with a deletion and
/// no purge resolves to deleted, in whatever order its operations came.
pub proof fn lemma_delete_overrides_edits(ops: Seq<OpView>)
    requires
        exists|i: int| 0 <= i < ops.len() && is_delete(#[trigger] ops[i]),
        forall|i: int| 0 <= i < ops.len() ==> !is_purge(#[trigger] ops[i]),
    ensures
        resolve_ops(ops) is Deleted,
{
    let i = choose|i: int| 0 <= i < ops.len() && is_delete(#[trigger] ops[i]);
    lemma_sort_contains(ops, ops[i]);
    let s = sort_ops(ops);
    let j = choose|j: int| 0 <= j < s.len() && s[j] == ops[i];
    assert(is_delete(s[j]));
    assert forall|k: int| 0 <= k < s.len() implies !is_purge(#[trigger] s[k]) by {
        lemma_sort_contains(ops, s[k]);
        assert(s.contains(s[k]));
        let m = choose|m: int| 0 <= m < ops.len() && ops[m] == s[k];
        assert(!is_purge(ops[m]));
    }
    lemma_fold_deleted(s);
}


/// Whether two operations have the same ordering key.
pub open spec fn same_key(a: OpView, b: OpView) -> bool {
    a.lamport == b.lamport && a.id.device_pubkey == b.id.device_pubkey
}

/// Whether no two operations of a list have the same ordering key.
pub open spec fn distinct_keys(s: Seq<OpView>) -> bool {
    forall|i: int, j: int| 0 <= i < j < s.len() ==> !same_key(#[trigger] s[i], #[trigger] s[j])
}

/// Reordering a list whose operations have distinct keys keeps them
/// distinct.
pub proof fn lemma_permutation_keeps_distinct_keys(ops1: Seq<OpView>, ops2: Seq<OpView>)
    requires
        ops1.to_multiset() == ops2.to_multiset(),
        distinct_keys(ops1),
    ensures
        distinct_keys(ops2),
{
    assert(ops1.no_duplicates()) by {
        assert forall|i: int, j: int| 0 <= i < ops1.len() && 0 <= j < ops1.len() && i != j implies ops1[i] != ops1[j] by {
            if i < j {
                assert(!same_key(ops1[i], ops1[j]));
            } else {
                assert(!same_key(ops1[j], ops1[i]));
            }
        }
    }
    ops1.lemma_multiset_has_no_duplicates();
    ops2.lemma_multiset_has_no_duplicates_conv();
    assert forall|i: int, j: int| 0 <= i < j < ops2.len() implies !same_key(#[trigger] ops2[i], #[trigger] ops2[j]) by {
        assert(ops2.contains(ops2[i]));
        assert(ops2.contains(ops2[j]));
        vstd::seq_lib::to_multiset_contains(ops2, ops2[i]);
        vstd::seq_lib::to_multiset_contains(ops2, ops2[j]);
        vstd::seq_lib::to_multiset_contains(ops1, ops2[i]);
        vstd::seq_lib::to_multiset_contains(ops1, ops2[j]);
        assert(ops1.contains(ops2[i]));
        assert(ops1.contains(ops2[j]));
        let a = choose|a: int| 0 <= a < ops1.len() && ops1[a] == ops2[i];
        let b = choose|b: int| 0 <= b < ops1.len() && ops1[b] == ops2[j];
        assert(ops2[i] != ops2[j]);
        if a < b {
            assert(!same_key(ops1[a], ops1[b]));
        } else {
            assert(!same_key(ops1[b], ops1[a]));
        }
    }
}

/// Whether each operation of a list comes before the next ones.
pub open spec fn strictly_ordered(s: Seq<OpView>) -> bool {
    forall|i: int, j: int| 0 <= i < j < s.len() ==> op_before(#[trigger] s[i], #[trigger] s[j])
}

proof fn lemma_key_bytes_transitive(a: [u8; 32], b: [u8; 32], c: [u8; 32])
    requires
        key_bytes_lt(a, b),
        key_bytes_lt(b, c),
    ensures
        key_bytes_lt(a, c),
{
    let i = choose|i: int| 0 <= i < 32 && a@.take(i) == b@.take(i) && #[trigger] a@[i] < b@[i];
    let j = choose|j: int| 0 <= j < 32 && b@.take(j) == c@.take(j) && #[trigger] b@[j] < c@[j];
    if i < j {
        assert(b@.take(j)[i] == c@.take(j)[i]);
        assert(a@.take(i) =~= c@.take(i)) by {
            assert forall|k: int| 0 <= k < i implies a@.take(i)[k] == c@.take(i)[k] by {
                assert(a@.take(i)[k] == b@.take(i)[k]);
                assert(b@.take(j)[k] == c@.take(j)[k]);
            }
        }
        assert(a@[i] < c@[i]);
    } else if j < i {
        assert(a@.take(i)[j] == b@.take(i)[j]);
        assert(a@.take(j) =~= c@.take(j)) by {
            assert forall|k: int| 0 <= k < j implies a@.take(j)[k] == c@.take(j)[k] by {
                assert(a@.take(i)[k] == b@.take(i)[k]);
                assert(b@.take(j)[k] == c@.take(j)[k]);
            }
        }
        assert(a@[j] < c@[j]);
    } else {
        assert(a@.take(i) =~= c@.take(i));
        assert(a@[i] < c@[i]);
    }
}

proof fn lemma_key_bytes_irreflexive(a: [u8; 32], b: [u8; 32])
    requires
        key_bytes_lt(a, b),
    ensures
        a != b,
        !key_bytes_lt(b, a),
{
    let i = choose|i: int| 0 <= i < 32 && a@.take(i) == b@.take(i) && #[trigger] a@[i] < b@[i];
    if key_bytes_lt(b, a) {
        lemma_key_bytes_transitive(a, b, a);
        let k = choose|k: int| 0 <= k < 32 && a@.take(k) == a@.take(k) && #[trigger] a@[k] < a@[k];
    }
}

proof fn lemma_key_bytes_total(a: [u8; 32], b: [u8; 32], k: int)
    requires
        0 <= k <= 32,
        a@.take(k) == b@.take(k),
        a != b,
    ensures
        key_bytes_lt(a, b) || key_bytes_lt(b, a),
    decreases 32 - k,
{
    if k == 32 {
        assert(a@ =~= a@.take(32));
        assert(b@ =~= b@.take(32));
        assert forall|j: int| 0 <= j < 32 implies a[j] == b[j] by {
            assert(a[j] == a@[j]);
            assert(b[j] == b@[j]);
        }
        assert(a =~= b);
    } else if a@[k] != b@[k] {
        if a@[k] < b@[k] {
            assert(key_bytes_lt(a, b));
        } else {
            assert(key_bytes_lt(b, a));
        }
    } else {
        assert(a@.take(k + 1) =~= a@.take(k).push(a@[k]));
        assert(b@.take(k + 1) =~= b@.take(k).push(b@[k]));
        lemma_key_bytes_total(a, b, k + 1);
    }
}

/// The order of operations is a strict order, total on distinct keys.
pub proof fn lemma_op_before_order(a: OpView, b: OpView, c: OpView)
    ensures
        !op_before(a, a),
        op_before(a, b) ==> !op_before(b, a),
        op_before(a, b) && op_before(b, c) ==> op_before(a, c),
        !same_key(a, b) ==> op_before(a, b) || op_before(b, a),
{
    if key_bytes_lt(a.id.device_pubkey, a.id.device_pubkey) {
        lemma_key_bytes_irreflexive(a.id.device_pubkey, a.id.device_pubkey);
    }
    if op_before(a, b) && a.lamport == b.lamport {
        lemma_key_bytes_irreflexive(a.id.device_pubkey, b.id.device_pubkey);
    }
    if op_before(a, b) && op_before(b, c) && a.lamport == b.lamport && b.lamport == c.lamport {
        lemma_key_bytes_transitive(a.id.device_pubkey, b.id.device_pubkey, c.id.device_pubkey);
    }
    if !same_key(a, b) && a.lamport == b.lamport {
        assert(a.id.device_pubkey@.take(0) =~= b.id.device_pubkey@.take(0));
        lemma_key_bytes_total(a.id.device_pubkey, b.id.device_pubkey, 0);
    }
}

proof fn lemma_insert_pos_props(s: Seq<OpView>, x: OpView)
    ensures
        0 <= insert_pos(s, x) <= s.len(),
        forall|j: int| 0 <= j < insert_pos(s, x) ==> !op_before(x, #[trigger] s[j]),
        insert_pos(s, x) < s.len() ==> op_before(x, s[insert_pos(s, x)]),
    decreases s.len(),
{
    if s.len() > 0 && !op_before(x, s[0]) {
        lemma_insert_pos_props(s.drop_first(), x);
        assert forall|j: int| 0 <= j < insert_pos(s, x) implies !op_before(x, #[trigger] s[j]) by {
            if j > 0 {
                assert(s[j] == s.drop_first()[j - 1]);
            }
        }
    }
}

proof fn lemma_sort_strict(s: Seq<OpView>)
    requires
        distinct_keys(s),
    ensures
        strictly_ordered(sort_ops(s)),
    decreases s.len(),
{
    if s.len() > 0 {
        let p = s.drop_last();
        let x = s.last();
        assert forall|i: int, j: int| 0 <= i < j < p.len() implies !same_key(#[trigger] p[i], #[trigger] p[j]) by {
            assert(p[i] == s[i] && p[j] == s[j]);
        }
        lemma_sort_strict(p);
        let r = sort_ops(p);
        lemma_sort_len(p);
        lemma_insert_pos_props(r, x);
        let pos = insert_pos(r, x);
        let t = r.insert(pos, x);
        r.insert_ensures(pos, x);
        assert forall|j: int| 0 <= j < r.len() implies !same_key(#[trigger] r[j], x) by {
            lemma_sort_contains(p, r[j]);
            assert(r.contains(r[j]));
            let k = choose|k: int| 0 <= k < p.len() && p[k] == r[j];
            assert(s[k] == p[k]);
            assert(!same_key(s[k], s[s.len() - 1]));
        }
        assert forall|i: int, j: int| 0 <= i < j < t.len() implies op_before(#[trigger] t[i], #[trigger] t[j]) by {
            if j < pos {
                assert(t[i] == r[i] && t[j] == r[j]);
            } else if j == pos {
                assert(t[i] == r[i]);
                assert(!op_before(x, r[i]));
                lemma_op_before_order(x, r[i], x);
            } else if i > pos {
                assert(t[i] == r[i - 1] && t[j] == r[j - 1]);
            } else if i == pos {
                assert(t[j] == r[j - 1]);
                if j - 1 > pos {
                    assert(op_before(r[pos], r[j - 1]));
                    lemma_op_before_order(x, r[pos], r[j - 1]);
                }
            } else {
                assert(t[i] == r[i] && t[j] == r[j - 1]);
            }
        }
    }
}

proof fn lemma_strict_unique(r1: Seq<OpView>, r2: Seq<OpView>)
    requires
        strictly_ordered(r1),
        strictly_ordered(r2),
        r1.to_multiset() == r2.to_multiset(),
    ensures
        r1 == r2,
    decreases r1.len(),
{
    vstd::seq_lib::to_multiset_len(r1);
    vstd::seq_lib::to_multiset_len(r2);
    if r1.len() == 0 {
        assert(r1.to_multiset().len() == r2.to_multiset().len());
        assert(r2.len() == 0);
        assert(r1 =~= r2);
    } else {
        assert(r1.to_multiset().len() == r2.to_multiset().len());
        assert(r2.len() == r1.len());
        assert(r1.to_multiset().count(r1[0]) > 0) by { assert(r1.contains(r1[0])); }
        assert(r2.contains(r1[0]));
        let j = choose|j: int| 0 <= j < r2.len() && r2[j] == r1[0];
        assert(r2.to_multiset().count(r2[0]) > 0) by { assert(r2.contains(r2[0])); }
        assert(r1.contains(r2[0]));
        let i = choose|i: int| 0 <= i < r1.len() && r1[i] == r2[0];
        if j > 0 {
            assert(op_before(r2[0], r2[j]));
            if i > 0 {
                assert(op_before(r1[0], r1[i]));
                lemma_op_before_order(r1[0], r1[i], r1[0]);
            } else {
                lemma_op_before_order(r1[0], r1[0], r1[0]);
            }
        }
        assert(r1[0] == r2[0]);
        vstd::seq_lib::to_multiset_remove(r1, 0);
        vstd::seq_lib::to_multiset_remove(r2, 0);
        assert(r1.remove(0) =~= r1.drop_first());
        assert(r2.remove(0) =~= r2.drop_first());
        assert forall|a: int, b: int| 0 <= a < b < r1.drop_first().len() implies op_before(#[trigger] r1.drop_first()[a], #[trigger] r1.drop_first()[b]) by {
            assert(r1.drop_first()[a] == r1[a + 1] && r1.drop_first()[b] == r1[b + 1]);
        }
        assert forall|a: int, b: int| 0 <= a < b < r2.drop_first().len() implies op_before(#[trigger] r2.drop_first()[a], #[trigger] r2.drop_first()[b]) by {
            assert(r2.drop_first()[a] == r2[a + 1] && r2.drop_first()[b] == r2[b + 1]);
        }
        lemma_strict_unique(r1.drop_first(), r2.drop_first());
        assert(r1 =~= r2) by {
            assert forall|k: int| 0 <= k < r1.len() implies r1[k] == r2[k] by {
                if k > 0 {
                    assert(r1[k] == r1.drop_first()[k - 1]);
                    assert(r2[k] == r2.drop_first()[k - 1]);
                }
            }
        }
    }
}

/// Replicas converge: two lists of the same operations, in any order,
/// resolve to the same state when no two operations share a Lamport time
/// and a device.
pub proof fn lemma_resolution_converges(ops1: Seq<OpView>, ops2: Seq<OpView>)
    requires
        ops1.to_multiset() == ops2.to_multiset(),
        distinct_keys(ops1),
    ensures
        resolve_ops(ops1) == resolve_ops(ops2),
{
    lemma_permutation_keeps_distinct_keys(ops1, ops2);
    lemma_sort_strict(ops1);
    lemma_sort_strict(ops2);
    lemma_sort_len(ops1);
    lemma_sort_len(ops2);
    lemma_strict_unique(sort_ops(ops1), sort_ops(ops2));
}


/// Whether an operation is an edit.
pub open spec fn is_edit(op: OpView) -> bool {
    op.operation is EditMessage
}

/// The state that an edit leaves.
pub open spec fn edited_state(op: OpView) -> ResolvedView {
    match op.operation {
        OperationView::EditMessage { body, edited_at, .. } => ResolvedView::Edited { body, last_edited_at: edited_at },
        _ => ResolvedView::NotCreated,
    }
}

proof fn lemma_fold_last_edit_wins(s: Seq<OpView>)
    requires
        strictly_ordered(s),
        forall|i: int| 0 <= i < s.len() ==> !is_purge(#[trigger] s[i]) && !is_delete(s[i]),
    ensures
        !resolve_fold(s).deleted,
        !resolve_fold(s).purged,
        resolve_fold(s).last_edit matches Some(l) ==> s.contains(l),
        forall|m: int| 0 <= m < s.len() && is_edit(#[trigger] s[m]) && (forall|j: int| m < j < s.len() ==> !is_edit(#[trigger] s[j]))
            ==> resolve_fold(s).state == edited_state(s[m]),
    decreases s.len(),
{
    if s.len() > 0 {
        let p = s.drop_last();
        let x = s.last();
        assert forall|i: int, j: int| 0 <= i < j < p.len() implies op_before(#[trigger] p[i], #[trigger] p[j]) by {
            assert(p[i] == s[i] && p[j] == s[j]);
        }
        assert forall|i: int| 0 <= i < p.len() implies !is_purge(#[trigger] p[i]) && !is_delete(p[i]) by {
            assert(p[i] == s[i]);
        }
        lemma_fold_last_edit_wins(p);
        let r = resolve_fold(p);
        assert(!is_purge(s[s.len() - 1]) && !is_delete(s[s.len() - 1]));
        if let Some(l) = r.last_edit {
            let i = choose|i: int| 0 <= i < p.len() && p[i] == l;
            assert(s[i] == l);
            assert(op_before(s[i], s[s.len() - 1]));
        }
        assert forall|m: int| 0 <= m < s.len() && is_edit(#[trigger] s[m]) && (forall|j: int| m < j < s.len() ==> !is_edit(#[trigger] s[j]))
            implies resolve_fold(s).state == edited_state(s[m]) by {
            if m < s.len() - 1 {
                assert(!is_edit(s[s.len() - 1]));
                assert(p[m] == s[m]);
                assert forall|j: int| m < j < p.len() implies !is_edit(#[trigger] p[j]) by {
                    assert(p[j] == s[j]);
                }
                assert(r.state == edited_state(p[m]));
            }
        }
        if let Some(l) = resolve_fold(s).last_edit {
            if Some(l) == r.last_edit {
                let i = choose|i: int| 0 <= i < p.len() && p[i] == l;
                assert(s[i] == l);
            } else {
                assert(s[s.len() - 1] == l);
            }
        }
    }
}

/// Among edits, the last write wins: with no deletion or purge, and no two
/// operations sharing a Lamport time and a device, a message resolves to
/// the edit that comes after every other edit.
pub proof fn lemma_last_write_wins(ops: Seq<OpView>, e: OpView)
    requires
        distinct_keys(ops),
        forall|i: int| 0 <= i < ops.len() ==> !is_purge(#[trigger] ops[i]) && !is_delete(ops[i]),
        ops.contains(e),
        is_edit(e),
        forall|i: int| 0 <= i < ops.len() && is_edit(#[trigger] ops[i]) && ops[i] != e ==> op_before(ops[i], e),
    ensures
        resolve_ops(ops) == edited_state(e),
{
    let s = sort_ops(ops);
    lemma_sort_strict(ops);
    lemma_sort_contains(ops, e);
    let m = choose|m: int| 0 <= m < s.len() && s[m] == e;
    assert forall|i: int| 0 <= i < s.len() implies !is_purge(#[trigger] s[i]) && !is_delete(s[i]) by {
        lemma_sort_contains(ops, s[i]);
        assert(s.contains(s[i]));
        let k = choose|k: int| 0 <= k < ops.len() && ops[k] == s[i];
        assert(!is_purge(ops[k]) && !is_delete(ops[k]));
    }
    assert forall|j: int| m < j < s.len() implies !is_edit(#[trigger] s[j]) by {
        if is_edit(s[j]) {
            assert(op_before(s[m], s[j]));
            lemma_sort_contains(ops, s[j]);
            assert(s.contains(s[j]));
            let k = choose|k: int| 0 <= k < ops.len() && ops[k] == s[j];
            if s[j] != e {
                assert(op_before(ops[k], e));
                lemma_op_before_order(s[m], s[j], s[m]);
            } else {
                lemma_op_before_order(e, e, e);
            }
        }
    }
    lemma_fold_last_edit_wins(s);
}

} // verus!
