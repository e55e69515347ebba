//! The peers a node knows: how it connects to them, their health,
//! statistics, settings, groups and tags, and the peers it has discovered
//! but not necessarily connected to. Times are Unix milliseconds.

use vstd::prelude::*;
use crate::assoc::{assoc_get, assoc_has, lemma_assoc_absent, lemma_assoc_found, lemma_assoc_push, lemma_assoc_update};
use crate::codec::utf8_to_string;
use crate::crypto::{copy_cert, DeviceCert};
use crate::events::copy_string;
use crate::ids::slice_subrange;
use crate::recovery::str_eq;
use crate::types::{ConnectionState, DiscoveryMethod, PeerConfig, PeerGroup, PeerHealth};
use vstd::utf8::{decode_utf8, encode_utf8, valid_utf8};

verus! {

/// Statistics of a peer.
#[derive(Clone, Copy, Debug)]
pub struct PeerStats {
    pub total_connection_attempts: u32,
    pub successful_connections: u32,
    pub failed_connections: u32,
    pub bytes_sent: u64,
    pub bytes_received: u64,
    pub last_successful_connection: Option<i64>,
    pub last_failed_connection: Option<i64>,
    /// Milliseconds.
    pub avg_connection_duration: u64,
    /// Milliseconds.
    pub total_connection_time: u64,
    pub disconnection_count: u32,
    pub last_activity: i64,
}

/// The statistics of a peer first seen at `now`.
pub open spec fn fresh_stats(now: i64) -> PeerStats {
    PeerStats {
        total_connection_attempts: 0,
        successful_connections: 0,
        failed_connections: 0,
        bytes_sent: 0,
        bytes_received: 0,
        last_successful_connection: None,
        last_failed_connection: None,
        avg_connection_duration: 0,
        total_connection_time: 0,
        disconnection_count: 0,
        last_activity: now,
    }
}

/// The statistics of a peer first seen at `now`.
pub fn create_default_peer_stats(now: i64) -> (s: PeerStats)
    ensures
        s == fresh_stats(now),
{
    PeerStats {
        total_connection_attempts: 0,
        successful_connections: 0,
        failed_connections: 0,
        bytes_sent: 0,
        bytes_received: 0,
        last_successful_connection: None,
        last_failed_connection: None,
        avg_connection_duration: 0,
        total_connection_time: 0,
        disconnection_count: 0,
        last_activity: now,
    }
}

/// The mathematical form of a [`PeerGroup`].
pub enum PeerGroupView {
    Local,
    Internet,
    Relay,
    Trusted,
    Blocked,
    Custom(Seq<char>),
}

impl View for PeerGroup {
    type V = PeerGroupView;

    open spec fn view(&self) -> PeerGroupView {
        match self {
            PeerGroup::Local => PeerGroupView::Local,
            PeerGroup::Internet => PeerGroupView::Internet,
            PeerGroup::Relay => PeerGroupView::Relay,
            PeerGroup::Trusted => PeerGroupView::Trusted,
            PeerGroup::Blocked => PeerGroupView::Blocked,
            PeerGroup::Custom(s) => PeerGroupView::Custom(s@),
        }
    }
}

/// The mathematical form of a [`PeerConfig`].
pub struct PeerConfigView {
    pub max_connection_attempts: u32,
    pub connection_timeout_secs: u64,
    pub health_check_interval_secs: u64,
    pub max_idle_time_secs: u64,
    pub group: PeerGroupView,
    pub auto_reconnect: bool,
    pub priority: u8,
}

impl View for PeerConfig {
    type V = PeerConfigView;

    open spec fn view(&self) -> PeerConfigView {
        PeerConfigView {
            max_connection_attempts: self.max_connection_attempts,
            connection_timeout_secs: self.connection_timeout_secs,
            health_check_interval_secs: self.health_check_interval_secs,
            max_idle_time_secs: self.max_idle_time_secs,
            group: self.group@,
            auto_reconnect: self.auto_reconnect,
            priority: self.priority,
        }
    }
}

/// How and when a peer was found.
#[derive(Debug)]
pub struct DiscoveryInfo {
    pub device_id: String,
    /// Where the peer can be reached.
    pub addresses: Vec<String>,
    pub service_type: String,
    pub service_name: String,
    pub discovered_at: i64,
    pub last_seen: i64,
    pub discovery_method: DiscoveryMethod,
}

/// The mathematical form of a [`DiscoveryInfo`].
pub struct DiscoveryInfoView {
    pub device_id: Seq<char>,
    pub addresses: Seq<Seq<char>>,
    pub service_type: Seq<char>,
    pub service_name: Seq<char>,
    pub discovered_at: i64,
    pub last_seen: i64,
    pub discovery_method: DiscoveryMethod,
}

/// The views of a list of texts.
pub open spec fn texts_view(v: Seq<String>) -> Seq<Seq<char>> {
    Seq::new(v.len(), |i: int| v[i]@)
}

impl View for DiscoveryInfo {
    type V = DiscoveryInfoView;

    open spec fn view(&self) -> DiscoveryInfoView {
        DiscoveryInfoView {
            device_id: self.device_id@,
            addresses: texts_view(self.addresses@),
            service_type: self.service_type@,
            service_name: self.service_name@,
            discovered_at: self.discovered_at,
            last_seen: self.last_seen,
            discovery_method: self.discovery_method,
        }
    }
}

/// A known peer.
#[derive(Debug)]
pub struct PeerInfo {
    pub device_id: String,
    pub device_name: String,
    pub is_online: bool,
    pub is_authorized: bool,
    /// The device's certificate, once known.
    pub device_cert: Option<DeviceCert>,
    pub connection_state: ConnectionState,
    pub last_seen: i64,
    pub connection_attempts: u32,
    pub last_attempt: Option<i64>,
    pub discovery_info: Option<DiscoveryInfo>,
    pub health: PeerHealth,
    pub stats: PeerStats,
    pub config: PeerConfig,
    pub connection_start_time: Option<i64>,
    pub last_health_check: Option<i64>,
    /// Labels given to the peer, each once.
    pub tags: Vec<String>,
}

/// The mathematical form of a [`PeerInfo`].
pub struct PeerInfoView {
    pub device_id: Seq<char>,
    pub device_name: Seq<char>,
    pub is_online: bool,
    pub is_authorized: bool,
    pub has_device_cert: bool,
    pub connection_state: ConnectionState,
    pub last_seen: i64,
    pub connection_attempts: u32,
    pub last_attempt: Option<i64>,
    pub discovery_info: Option<DiscoveryInfoView>,
    pub health: PeerHealth,
    pub stats: PeerStats,
    pub config: PeerConfigView,
    pub connection_start_time: Option<i64>,
    pub last_health_check: Option<i64>,
    pub tags: Set<Seq<char>>,
}

impl View for PeerInfo {
    type V = PeerInfoView;

    open spec fn view(&self) -> PeerInfoView {
        PeerInfoView {
            device_id: self.device_id@,
            device_name: self.device_name@,
            is_online: self.is_online,
            is_authorized: self.is_authorized,
            has_device_cert: self.device_cert is Some,
            connection_state: self.connection_state,
            last_seen: self.last_seen,
            connection_attempts: self.connection_attempts,
            last_attempt: self.last_attempt,
            discovery_info: match self.discovery_info {
                Some(d) => Some(d@),
                None => None,
            },
            health: self.health,
            stats: self.stats,
            config: self.config@,
            connection_start_time: self.connection_start_time,
            last_health_check: self.last_health_check,
            tags: texts_view(self.tags@).to_set(),
        }
    }
}

/// Why a peer operation failed.
#[derive(Debug)]
pub enum NetworkError {
    /// A connection to the peer is already being made.
    ConnectionInProgress,
    /// The connection attempt failed, for the reason given.
    ConnectionFailed(String),
}

/// The text that an error reads as.
pub open spec fn network_error_text(e: NetworkError) -> Seq<char> {
    match e {
        NetworkError::ConnectionInProgress => "Network error: Connection already in progress"@,
        NetworkError::ConnectionFailed(s) => "Network error: "@ + s@,
    }
}

impl NetworkError {
    /// The text of the error.
    pub fn message(&self) -> (r: String)
        ensures
            r@ == network_error_text(*self),
    {
        match self {
            NetworkError::ConnectionInProgress => String::from_str("Network error: Connection already in progress"),
            NetworkError::ConnectionFailed(s) => String::from_str("Network error: ").concat(s.as_str()),
        }
    }
}

/// An event about a peer, for the listeners of the network.
#[derive(Debug, PartialEq, Eq)]
pub enum PeerEvent {
    /// The peer with this id was disconnected.
    Disconnected(String),
}

/// Whether an event is the disconnection of a peer with this id.
pub open spec fn is_disconnected_event(e: PeerEvent, device_id: Seq<char>) -> bool {
    e matches PeerEvent::Disconnected(s) && s@ == device_id
}

/// How long a disconnected peer stays in the table before it is forgotten,
/// in milliseconds.
pub const FORGET_DISCONNECTED_AFTER_MS: u64 = 5_000;

/// What the host does once a peer was disconnected: send the event to the
/// listeners, then, after the delay, forget the peer with
/// [`PeerTable::forget_peer`].
pub struct Disconnection {
    pub event: PeerEvent,
    pub forget_after_ms: u64,
}

/// The mathematical form of a [`PeerTable`].
pub struct PeerTableView {
    /// Known peers by device id.
    pub peers: Seq<(Seq<char>, PeerInfoView)>,
    /// Discovered peers by device id.
    pub discovered: Seq<(Seq<char>, DiscoveryInfoView)>,
    /// Statistics history by device id, oldest first.
    pub history: Seq<(Seq<char>, Seq<PeerStats>)>,
    pub service_name: Seq<char>,
    pub service_type: Seq<char>,
    /// The peers placed in each group by a change of their settings.
    pub groups: Seq<(PeerGroupView, Set<Seq<char>>)>,
}

/// The peers a node knows.
pub struct PeerTable {
    peers: Vec<PeerInfo>,
    discovered: Vec<DiscoveryInfo>,
    history: Vec<(String, Vec<PeerStats>)>,
    service_name: String,
    service_type: String,
    groups: Vec<(PeerGroup, Vec<String>)>,
}

impl View for PeerTable {
    type V = PeerTableView;

    closed spec fn view(&self) -> PeerTableView {
        PeerTableView {
            peers: Seq::new(self.peers@.len(), |i: int| (self.peers@[i].device_id@, self.peers@[i]@)),
            discovered: Seq::new(self.discovered@.len(), |i: int| (self.discovered@[i].device_id@, self.discovered@[i]@)),
            history: Seq::new(self.history@.len(), |i: int| (self.history@[i].0@, self.history@[i].1@)),
            service_name: self.service_name@,
            service_type: self.service_type@,
            groups: Seq::new(self.groups@.len(), |i: int| (self.groups@[i].0@, texts_view(self.groups@[i].1@).to_set())),
        }
    }
}

/// The first eight bytes of a device id, as text; they must end on a
/// character boundary.
pub open spec fn id_head(device_id: Seq<char>) -> Seq<char> {
    decode_utf8(encode_utf8(device_id).take(8))
}

/// Whether the table holds each peer, and each discovered peer, once.
pub open spec fn ids_distinct(v: PeerTableView) -> bool {
    &&& crate::assoc::keys_distinct(v.peers)
    &&& crate::assoc::keys_distinct(v.discovered)
}

/// Whether a device id can be cut after its first eight bytes.
pub open spec fn id_head_ok(device_id: Seq<char>) -> bool {
    encode_utf8(device_id).len() >= 8 && valid_utf8(encode_utf8(device_id).take(8))
}

/// The name given to a peer known only by its id.
pub open spec fn placeholder_name(device_id: Seq<char>) -> Seq<char> {
    "Device "@ + id_head(device_id)
}

/// The service name of a peer, under this node's service name.
pub open spec fn peer_service_name(service: Seq<char>, device_id: Seq<char>) -> Seq<char> {
    service + "-"@ + id_head(device_id)
}

/// A peer to which a connection is being made, first seen at `now`.
pub open spec fn connecting_peer(t: PeerTableView, device_id: Seq<char>, addresses: Seq<Seq<char>>, now: i64) -> PeerInfoView {
    PeerInfoView {
        device_id,
        device_name: placeholder_name(device_id),
        is_online: false,
        is_authorized: false,
        has_device_cert: false,
        connection_state: ConnectionState::Connecting,
        last_seen: now,
        connection_attempts: 1,
        last_attempt: Some(now),
        discovery_info: Some(manual_discovery(t, device_id, addresses, now)),
        health: PeerHealth::Unknown,
        stats: fresh_stats(now),
        config: PeerConfigView {
            max_connection_attempts: 5,
            connection_timeout_secs: 30,
            health_check_interval_secs: 60,
            max_idle_time_secs: 300,
            group: PeerGroupView::Local,
            auto_reconnect: true,
            priority: 5,
        },
        connection_start_time: None,
        last_health_check: None,
        tags: Set::empty(),
    }
}

/// How a peer added by hand is recorded as discovered.
pub open spec fn manual_discovery(t: PeerTableView, device_id: Seq<char>, addresses: Seq<Seq<char>>, now: i64) -> DiscoveryInfoView {
    DiscoveryInfoView {
        device_id,
        addresses,
        service_type: t.service_type,
        service_name: peer_service_name(t.service_name, device_id),
        discovered_at: now,
        last_seen: now,
        discovery_method: DiscoveryMethod::Manual,
    }
}

/// A peer once a connection to it is made at `now`.
pub open spec fn connected_peer(p: PeerInfoView, now: i64) -> PeerInfoView {
    PeerInfoView {
        connection_state: ConnectionState::Connected,
        is_online: true,
        last_seen: now,
        connection_start_time: Some(now),
        stats: PeerStats {
            successful_connections: (p.stats.successful_connections + 1) as u32,
            last_successful_connection: Some(now),
            last_activity: now,
            ..p.stats
        },
        ..p
    }
}

/// A peer once a connection attempt to it fails at `now`.
pub open spec fn failed_peer(p: PeerInfoView, now: i64) -> PeerInfoView {
    PeerInfoView {
        connection_state: ConnectionState::Failed,
        connection_attempts: (p.connection_attempts + 1) as u32,
        stats: PeerStats {
            failed_connections: (p.stats.failed_connections + 1) as u32,
            last_failed_connection: Some(now),
            ..p.stats
        },
        ..p
    }
}

/// The text whose presence in a device id makes a simulated connection
/// fail.
pub open spec fn fail_marker() -> Seq<char> {
    seq!['f', 'a', 'i', 'l']
}

/// Whether a disconnected peer was last seen long enough before `now` to
/// be forgotten: more than 300 whole seconds.
pub open spec fn stale(p: PeerInfoView, now: i64) -> bool {
    p.connection_state == ConnectionState::Disconnected && now - p.last_seen >= 301_000
}

/// The peers kept by maintenance at `now`, in order.
pub open spec fn kept_after_maintenance(ps: Seq<(Seq<char>, PeerInfoView)>, now: i64) -> Seq<(Seq<char>, PeerInfoView)>
    decreases ps.len(),
{
    if ps.len() == 0 {
        Seq::empty()
    } else {
        let r = kept_after_maintenance(ps.drop_last(), now);
        if stale(ps.last().1, now) { r } else { r.push(ps.last()) }
    }
}

/// Keeping the peers that are not stale keeps their ids distinct, and
/// keeps only ids that were there.
proof fn lemma_kept_distinct(ps: Seq<(Seq<char>, PeerInfoView)>, now: i64)
    requires
        crate::assoc::keys_distinct(ps),
    ensures
        crate::assoc::keys_distinct(kept_after_maintenance(ps, now)),
        forall|i: int| 0 <= i < kept_after_maintenance(ps, now).len() ==>
            exists|j: int| 0 <= j < ps.len() && ps[j].0 == #[trigger] kept_after_maintenance(ps, now)[i].0,
    decreases ps.len(),
{
    if ps.len() > 0 {
        let d = ps.drop_last();
        lemma_kept_distinct(d, now);
        let r = kept_after_maintenance(ps, now);
        let rd = kept_after_maintenance(d, now);
        assert forall|i: int| 0 <= i < rd.len() implies exists|j: int| 0 <= j < ps.len() && ps[j].0 == #[trigger] rd[i].0 by {
            let j = choose|j: int| 0 <= j < d.len() && d[j].0 == rd[i].0;
            assert(ps[j].0 == rd[i].0);
        }
        if !stale(ps.last().1, now) {
            assert(r == rd.push(ps.last()));
            assert forall|a: int, b: int| 0 <= a < b < r.len() implies r[a].0 != r[b].0 by {
                if b == r.len() - 1 {
                    let j = choose|j: int| 0 <= j < d.len() && d[j].0 == #[trigger] rd[a].0;
                    assert(ps[j].0 != ps[ps.len() - 1].0);
                } else {
                    assert(r[a] == rd[a] && r[b] == rd[b]);
                }
            }
            assert forall|i: int| 0 <= i < r.len() implies exists|j: int| 0 <= j < ps.len() && ps[j].0 == #[trigger] r[i].0 by {
                if i == r.len() - 1 {
                    assert(ps[ps.len() - 1].0 == r[i].0);
                } else {
                    assert(r[i] == rd[i]);
                }
            }
        }
    }
}

/// A peer after the periodic check at `now`: a connected peer idle for
/// more than 600 whole seconds is degraded.
pub open spec fn checked_peer(p: PeerInfoView, now: i64) -> PeerInfoView {
    if p.connection_state == ConnectionState::Connected && now - p.stats.last_activity >= 601_000 {
        PeerInfoView { health: PeerHealth::Degraded, ..p }
    } else {
        p
    }
}

/// The health a health check at `now` gives a connected peer: degraded
/// when idle for more than 300 whole seconds, healthy otherwise.
pub open spec fn checked_health(p: PeerInfoView, now: i64) -> PeerHealth {
    if now - p.stats.last_activity >= 301_000 { PeerHealth::Degraded } else { PeerHealth::Healthy }
}

/// A peer after a health check at `now`: a connected peer is checked and
/// seen; others are left alone.
pub open spec fn health_checked_peer(p: PeerInfoView, now: i64) -> PeerInfoView {
    if p.connection_state == ConnectionState::Connected {
        PeerInfoView { last_health_check: Some(now), health: checked_health(p, now), last_seen: now, ..p }
    } else {
        p
    }
}

/// The health changes a health check at `now` makes, in peer order: the
/// peer, its old health and its new one.
pub open spec fn health_changes(ps: Seq<(Seq<char>, PeerInfoView)>, now: i64) -> Seq<(Seq<char>, PeerHealth, PeerHealth)>
    decreases ps.len(),
{
    if ps.len() == 0 {
        Seq::empty()
    } else {
        let r = health_changes(ps.drop_last(), now);
        let p = ps.last().1;
        if p.connection_state == ConnectionState::Connected && checked_health(p, now) != p.health {
            r.push((ps.last().0, p.health, checked_health(p, now)))
        } else {
            r
        }
    }
}

/// The ids of the peers that satisfy `f`, in order.
pub open spec fn peer_ids_where(ps: Seq<(Seq<char>, PeerInfoView)>, f: spec_fn(PeerInfoView) -> bool) -> Seq<Seq<char>>
    decreases ps.len(),
{
    if ps.len() == 0 {
        Seq::empty()
    } else {
        let r = peer_ids_where(ps.drop_last(), f);
        if f(ps.last().1) { r.push(ps.last().0) } else { r }
    }
}

/// How many peers satisfy `f`.
pub open spec fn count_where(ps: Seq<(Seq<char>, PeerInfoView)>, f: spec_fn(PeerInfoView) -> bool) -> nat {
    peer_ids_where(ps, f).len()
}

/// The most statistics kept per peer.
pub const STATS_HISTORY_LIMIT: usize = 100;

/// A history with one more entry, the oldest dropped beyond the limit.
pub open spec fn history_push(h: Seq<PeerStats>, s: PeerStats) -> Seq<PeerStats> {
    if h.len() + 1 > STATS_HISTORY_LIMIT { h.push(s).drop_first() } else { h.push(s) }
}

/// The discovered peers found by a method, in order.
pub open spec fn discovered_by(ds: Seq<(Seq<char>, DiscoveryInfoView)>, method: DiscoveryMethod) -> Seq<DiscoveryInfoView>
    decreases ds.len(),
{
    if ds.len() == 0 {
        Seq::empty()
    } else {
        let r = discovered_by(ds.drop_last(), method);
        if ds.last().1.discovery_method == method { r.push(ds.last().1) } else { r }
    }
}

/// A peer's statistics history never holds more than
/// [`STATS_HISTORY_LIMIT`] entries, and its newest entry is the last
/// recorded.
pub proof fn lemma_history_bounded(h: Seq<PeerStats>, s: PeerStats)
    requires
        h.len() <= STATS_HISTORY_LIMIT,
    ensures
        history_push(h, s).len() <= STATS_HISTORY_LIMIT,
        history_push(h, s).last() == s,
        h.len() < STATS_HISTORY_LIMIT ==> history_push(h, s) == h.push(s),
{
}

/// What `char::is_alphanumeric` says of a character: whether it is
/// alphabetic or numeric, in Unicode's terms.
pub uninterp spec fn unicode_alphanumeric(c: char) -> bool;

/// What `str::to_lowercase` gives for a text: its lowercase form, in
/// Unicode's terms.
pub uninterp spec fn unicode_lowercase(s: Seq<char>) -> Seq<char>;

/// The ASCII letters of a text made lowercase.
pub open spec fn ascii_lower(s: Seq<char>) -> Seq<char> {
    Seq::new(s.len(), |i: int| if 65 <= (s[i] as u32) <= 90 { ((s[i] as u32) + 32) as char } else { s[i] })
}

/// Whether a text holds ASCII characters only.
pub open spec fn all_ascii(s: Seq<char>) -> bool {
    forall|i: int| 0 <= i < s.len() ==> (s[i] as u32) < 128
}

/// Whether a character is an ASCII letter or digit.
pub open spec fn ascii_alphanumeric(c: char) -> bool {
    (48 <= (c as u32) <= 57) || (65 <= (c as u32) <= 90) || (97 <= (c as u32) <= 122)
}

/// Whether a character is alphabetic or numeric (`char::is_alphanumeric`);
/// an ASCII character is so exactly when it is a letter or a digit.
#[verifier::external_body]
fn char_is_alphanumeric(c: char) -> (r: bool)
    ensures
        r == unicode_alphanumeric(c),
        (c as u32) < 128 ==> r == ascii_alphanumeric(c),
{
    c.is_alphanumeric()
}

/// The lowercase form of a text (`str::to_lowercase`); a text of ASCII
/// characters has its letters made lowercase and nothing else changed.
#[verifier::external_body]
fn text_to_lowercase(s: &str) -> (r: String)
    ensures
        r@ == unicode_lowercase(s@),
        all_ascii(s@) ==> r@ == ascii_lower(s@),
{
    s.to_lowercase()
}

/// Whether every character of a device id is alphanumeric, a hyphen or an
/// underscore.
pub open spec fn id_chars_ok(id: Seq<char>) -> bool {
    forall|i: int| 0 <= i < id.len() ==> unicode_alphanumeric(#[trigger] id[i]) || id[i] == '-' || id[i] == '_'
}

/// Whether the lowercase form of a device id contains a word that no
/// genuine device id holds.
pub open spec fn suspicious_id(id: Seq<char>) -> bool {
    let l = unicode_lowercase(id);
    contains_text(l, "admin"@) || contains_text(l, "root"@) || contains_text(l, "system"@)
        || contains_text(l, "test"@) || contains_text(l, "null"@) || contains_text(l, "undefined"@)
}

/// Whether a known peer is trusted at `now`: its id is well formed (1 to 64
/// bytes of alphanumerics, hyphens and underscores, with no suspicious
/// word), it has a certificate and is authorized, and it is connected,
/// seen within the last 24 whole hours and not unhealthy.
pub open spec fn peer_authorized(t: PeerTableView, id: Seq<char>, now: i64) -> bool {
    match assoc_get(t.peers, id) {
        None => false,
        Some(p) => {
            &&& 0 < encode_utf8(id).len() <= 64
            &&& id_chars_ok(id)
            &&& !suspicious_id(id)
            &&& p.has_device_cert
            &&& p.is_authorized
            &&& p.connection_state == ConnectionState::Connected
            &&& now - p.last_seen < 90_000_000
            &&& p.health != PeerHealth::Unhealthy
        },
    }
}

/// Whether `t` occurs in `s`.
pub fn text_contains(s: &str, t: &str) -> (r: bool)
    ensures
        r == contains_text(s@, t@),
{
    let n = s.unicode_len();
    let m = t.unicode_len();
    if m > n {
        proof {
            assert(!contains_text(s@, t@)) by {
                if contains_text(s@, t@) {
                    let i = choose|i: int| 0 <= i && i + t@.len() <= s@.len() && #[trigger] s@.subrange(i, i + t@.len()) == t@;
                }
            }
        }
        return false;
    }
    let mut i: usize = 0;
    while i <= n - m
        invariant
            m <= n,
            n == s@.len(),
            m == t@.len(),
            i <= n - m + 1,
            forall|j: int| 0 <= j < i ==> #[trigger] s@.subrange(j, j + m) != t@,
        decreases n - m + 1 - i,
    {
        let mut k: usize = 0;
        let mut same = true;
        while k < m
            invariant
                k <= m,
                i + m <= n,
                n == s@.len(),
                m == t@.len(),
                same == (forall|q: int| 0 <= q < k ==> s@[i + q] == t@[q]),
            decreases m - k,
        {
            if s.get_char(i + k) != t.get_char(k) {
                same = false;
            }
            k = k + 1;
        }
        if same {
            proof {
                assert(s@.subrange(i as int, i + m) =~= t@);
                assert(s@.subrange(i as int, i as int + t@.len()) == t@);
            }
            return true;
        }
        proof {
            assert(s@.subrange(i as int, i + m) != t@) by {
                if s@.subrange(i as int, i + m) == t@ {
                    let q = choose|q: int| 0 <= q < m && s@[i + q] != t@[q];
                    assert(s@.subrange(i as int, i + m)[q] == s@[i + q]);
                }
            }
        }
        i = i + 1;
    }
    proof {
        assert(!contains_text(s@, t@)) by {
            if contains_text(s@, t@) {
                let j = choose|j: int| 0 <= j && j + t@.len() <= s@.len() && #[trigger] s@.subrange(j, j + t@.len()) == t@;
                assert(s@.subrange(j, j + m) == t@);
            }
        }
    }
    false
}

/// The counts a summary gives.
pub struct PeerSummary {
    pub total_peers: u32,
    pub connected_peers: u32,
    pub healthy_peers: u32,
    pub unhealthy_peers: u32,
}

/// Whether `t` occurs in `s`.
pub open spec fn contains_text(s: Seq<char>, t: Seq<char>) -> bool {
    exists|i: int| 0 <= i && i + t.len() <= s.len() && #[trigger] s.subrange(i, i + t.len()) == t
}

/// Whether the connection attempt to a device fails: the attempt is
/// simulated, and fails for ids that contain "fail".
pub fn simulate_connection_attempt(device_id: &str) -> (r: Result<(), NetworkError>)
    ensures
        r is Ok <==> !contains_text(device_id@, fail_marker()),
        r matches Err(e) ==> e matches NetworkError::ConnectionFailed(m) && m@ == "Simulated connection failure"@,
{
    let s = device_id;
    let n = s.unicode_len();
    let ghost pat = fail_marker();
    let mut i: usize = 0;
    while i < n && n - i >= 4
        invariant
            i <= n,
            n == s@.len(),
            s@ == device_id@,
            pat == fail_marker(),
            forall|j: int| 0 <= j < i && j + 4 <= s@.len() ==> #[trigger] s@.subrange(j, j + 4) != pat,
        decreases n - i,
    {
        if s.get_char(i) == 'f' && s.get_char(i + 1) == 'a' && s.get_char(i + 2) == 'i' && s.get_char(i + 3) == 'l' {
            proof {
                assert(s@.subrange(i as int, i + 4) =~= pat);
                assert(pat.len() == 4);
                assert(s@.subrange(i as int, i as int + pat.len()) == pat);
                assert(contains_text(s@, pat));
            }
            return Err(NetworkError::ConnectionFailed(String::from_str("Simulated connection failure")));
        }
        proof {
            assert(s@.subrange(i as int, i + 4) != pat) by {
                if s@.subrange(i as int, i + 4) == pat {
                    assert(s@.subrange(i as int, i + 4)[0] == s@[i as int]);
                    assert(s@.subrange(i as int, i + 4)[1] == s@[i + 1]);
                    assert(s@.subrange(i as int, i + 4)[2] == s@[i + 2]);
                    assert(s@.subrange(i as int, i + 4)[3] == s@[i + 3]);
                }
            }
        }
        i = i + 1;
    }
    proof {
        assert(!contains_text(s@, pat)) by {
            if contains_text(s@, pat) {
                let j = choose|j: int| 0 <= j && j + pat.len() <= s@.len() && #[trigger] s@.subrange(j, j + pat.len()) == pat;
                assert(j < i);
            }
        }
    }
    Ok(())
}

/// The text of the first eight bytes of a device id.
pub(crate) fn head_of(device_id: &str) -> (r: String)
    requires
        id_head_ok(device_id@),
    ensures
        r@ == id_head(device_id@),
{
    let bytes = device_id.as_bytes();
    let head = vstd::slice::slice_to_vec(slice_subrange(bytes, 0, 8));
    proof { assert(head@ == encode_utf8(device_id@).take(8)); }
    match utf8_to_string(head) {
        Some(t) => t,
        None => String::new(),
    }
}

/// Whether a device id can be cut after its first eight bytes.
pub fn id_head_checked(device_id: &str) -> (r: bool)
    ensures
        r == id_head_ok(device_id@),
{
    let bytes = device_id.as_bytes();
    if bytes.len() < 8 {
        return false;
    }
    let head = vstd::slice::slice_to_vec(slice_subrange(bytes, 0, 8));
    proof { assert(head@ == encode_utf8(device_id@).take(8)); }
    utf8_to_string(head).is_some()
}

/// A copy of a list of texts.
pub(crate) fn copy_texts(v: &Vec<String>) -> (r: Vec<String>)
    ensures
        texts_view(r@) == texts_view(v@),
{
    let mut r: Vec<String> = Vec::new();
    let mut i: usize = 0;
    while i < v.len()
        invariant
            i <= v@.len(),
            r@.len() == i,
            forall|j: int| 0 <= j < i ==> #[trigger] r@[j]@ == v@[j]@,
        decreases v@.len() - i,
    {
        r.push(copy_string(&v[i]));
        i = i + 1;
    }
    assert(texts_view(r@) =~= texts_view(v@));
    r
}

/// What connecting to a peer at time `now` answers (`r`) and leaves in the
/// table: nothing changes for a peer that is connected or being connected;
/// otherwise the peer is recorded as discovered by hand at these addresses,
/// and ends connected, or failed (with the simulated failure's error) when
/// its id holds the failure marker.
pub open spec fn connect_outcome(
    before: PeerTableView,
    device_id: Seq<char>,
    addresses: Seq<Seq<char>>,
    now: i64,
    r: Result<(), NetworkError>,
    after: PeerTableView,
) -> bool {
    &&& after.history == before.history
    &&& after.service_name == before.service_name
    &&& after.service_type == before.service_type
    &&& after.groups == before.groups
    &&& (assoc_get(before.peers, device_id) matches Some(p) && p.connection_state == ConnectionState::Connected)
        ==> (r is Ok && after == before)
    &&& (assoc_get(before.peers, device_id) matches Some(p) && p.connection_state == ConnectionState::Connecting)
        ==> (r matches Err(NetworkError::ConnectionInProgress) && after == before)
    &&& !(assoc_get(before.peers, device_id) matches Some(p) && (p.connection_state == ConnectionState::Connected
        || p.connection_state == ConnectionState::Connecting)) ==> {
        &&& (r is Ok <==> !contains_text(device_id, fail_marker()))
        &&& (r matches Err(e) ==> e matches NetworkError::ConnectionFailed(m) && m@ == "Simulated connection failure"@)
        &&& forall|k: Seq<char>| #[trigger] assoc_get(after.peers, k) == (if k == device_id {
            Some(if r is Ok {
                connected_peer(connecting_peer(before, device_id, addresses, now), now)
            } else {
                failed_peer(connecting_peer(before, device_id, addresses, now), now)
            })
        } else {
            assoc_get(before.peers, k)
        })
        &&& forall|k: Seq<char>| #[trigger] assoc_get(after.discovered, k) == (if k == device_id {
            Some(manual_discovery(before, device_id, addresses, now))
        } else {
            assoc_get(before.discovered, k)
        })
    }
}

impl PeerTable {
    /// An empty table for a node whose service has the given name and type.
    pub fn new(service_name: String, service_type: String) -> (r: Self)
        ensures
            ids_distinct(r@),
            r@.peers.len() == 0,
            r@.discovered.len() == 0,
            r@.history.len() == 0,
            r@.service_name == service_name@,
            r@.service_type == service_type@,
            r@.groups.len() == 0,
    {
        let r = PeerTable { peers: Vec::new(), discovered: Vec::new(), history: Vec::new(), service_name, service_type, groups: Vec::new() };
        assert(r@.groups =~= Seq::<(PeerGroupView, Set<Seq<char>>)>::empty());
        assert(r@.peers =~= Seq::<(Seq<char>, PeerInfoView)>::empty());
        assert(r@.discovered =~= Seq::<(Seq<char>, DiscoveryInfoView)>::empty());
        assert(r@.history =~= Seq::<(Seq<char>, Seq<PeerStats>)>::empty());
        r
    }

    fn find_peer(&self, device_id: &str) -> (r: Option<usize>)
        ensures
            match r {
                Some(i) => i < self@.peers.len() && self@.peers[i as int].0 == device_id@
                    && (forall|j: int| 0 <= j < i ==> self@.peers[j].0 != device_id@)
                    && assoc_get(self@.peers, device_id@) == Some(self@.peers[i as int].1),
                None => assoc_get(self@.peers, device_id@) is None
                    && (forall|j: int| 0 <= j < self@.peers.len() ==> self@.peers[j].0 != device_id@),
            },
    {
        let mut i: usize = 0;
        while i < self.peers.len()
            invariant
                i <= self.peers@.len(),
                forall|j: int| 0 <= j < i ==> self@.peers[j].0 != device_id@,
            decreases self.peers@.len() - i,
        {
            if str_eq(self.peers[i].device_id.as_str(), device_id) {
                proof { lemma_assoc_found(self@.peers, i as int, device_id@); }
                return Some(i);
            }
            i = i + 1;
        }
        proof { lemma_assoc_absent(self@.peers, device_id@); }
        None
    }

    /// Replaces the entry at `i`, the first of its peer, by a record of the
    /// same peer.
    fn set_peer(&mut self, i: usize, p: PeerInfo)
        requires
            i < old(self)@.peers.len(),
            old(self)@.peers[i as int].0 == p.device_id@,
            forall|j: int| 0 <= j < i ==> old(self)@.peers[j].0 != p.device_id@,
        ensures
            ids_distinct(old(self)@) ==> ids_distinct(final(self)@),
            final(self)@.discovered == old(self)@.discovered,
            final(self)@.history == old(self)@.history,
            final(self)@.service_name == old(self)@.service_name,
            final(self)@.service_type == old(self)@.service_type,
            final(self)@.groups == old(self)@.groups,
            final(self)@.peers == old(self)@.peers.update(i as int, (p.device_id@, p@)),
            forall|k: Seq<char>| #[trigger] assoc_get(final(self)@.peers, k)
                == (if k == p.device_id@ { Some(p@) } else { assoc_get(old(self)@.peers, k) }),
    {
        let ghost id = p.device_id@;
        let ghost pv = p@;
        let ghost before = self@.peers;
        self.peers.set(i, p);
        proof {
            assert(self@.peers =~= before.update(i as int, (id, pv)));
            assert forall|k: Seq<char>| #[trigger] assoc_get(self@.peers, k)
                == (if k == id { Some(pv) } else { assoc_get(before, k) }) by {
                lemma_assoc_update(before, i as int, pv, k);
            }
        }
    }

    /// Records a peer, in place of any record of it.
    fn put_peer(&mut self, p: PeerInfo)
        ensures
            ids_distinct(old(self)@) ==> ids_distinct(final(self)@),
            final(self)@.discovered == old(self)@.discovered,
            final(self)@.history == old(self)@.history,
            final(self)@.service_name == old(self)@.service_name,
            final(self)@.service_type == old(self)@.service_type,
            final(self)@.groups == old(self)@.groups,
            forall|k: Seq<char>| #[trigger] assoc_get(final(self)@.peers, k)
                == (if k == p.device_id@ { Some(p@) } else { assoc_get(old(self)@.peers, k) }),
    {
        let ghost id = p.device_id@;
        let ghost pv = p@;
        let ghost before = self@.peers;
        match self.find_peer(p.device_id.as_str()) {
            Some(i) => { self.set_peer(i, p); }
            None => {
                self.peers.push(p);
                proof {
                    assert(self@.peers =~= before.push((id, pv)));
                    assert forall|k: Seq<char>| #[trigger] assoc_get(self@.peers, k)
                        == (if k == id { Some(pv) } else { assoc_get(before, k) }) by {
                        lemma_assoc_push(before, id, pv, k);
                    }
                }
            }
        }
    }

    fn find_discovered(&self, device_id: &str) -> (r: Option<usize>)
        ensures
            match r {
                Some(i) => i < self@.discovered.len() && self@.discovered[i as int].0 == device_id@
                    && (forall|j: int| 0 <= j < i ==> self@.discovered[j].0 != device_id@),
                None => assoc_get(self@.discovered, device_id@) is None
                    && (forall|j: int| 0 <= j < self@.discovered.len() ==> self@.discovered[j].0 != device_id@),
            },
    {
        let mut i: usize = 0;
        while i < self.discovered.len()
            invariant
                i <= self.discovered@.len(),
                forall|j: int| 0 <= j < i ==> self@.discovered[j].0 != device_id@,
            decreases self.discovered@.len() - i,
        {
            if str_eq(self.discovered[i].device_id.as_str(), device_id) {
                return Some(i);
            }
            i = i + 1;
        }
        proof { lemma_assoc_absent(self@.discovered, device_id@); }
        None
    }

    /// Records a discovered peer, in place of any record of it.
    pub(crate) fn put_discovered(&mut self, d: DiscoveryInfo)
        ensures
            ids_distinct(old(self)@) ==> ids_distinct(final(self)@),
            final(self)@.peers == old(self)@.peers,
            final(self)@.history == old(self)@.history,
            final(self)@.service_name == old(self)@.service_name,
            final(self)@.service_type == old(self)@.service_type,
            final(self)@.groups == old(self)@.groups,
            forall|k: Seq<char>| #[trigger] assoc_get(final(self)@.discovered, k)
                == (if k == d.device_id@ { Some(d@) } else { assoc_get(old(self)@.discovered, k) }),
    {
        let ghost id = d.device_id@;
        let ghost dv = d@;
        let ghost before = self@.discovered;
        match self.find_discovered(d.device_id.as_str()) {
            Some(i) => {
                self.discovered.set(i, d);
                proof {
                    assert(self@.discovered =~= before.update(i as int, (id, dv)));
                    assert forall|k: Seq<char>| #[trigger] assoc_get(self@.discovered, k)
                        == (if k == id { Some(dv) } else { assoc_get(before, k) }) by {
                        lemma_assoc_update(before, i as int, dv, k);
                    }
                }
            }
            None => {
                self.discovered.push(d);
                proof {
                    assert(self@.discovered =~= before.push((id, dv)));
                    assert forall|k: Seq<char>| #[trigger] assoc_get(self@.discovered, k)
                        == (if k == id { Some(dv) } else { assoc_get(before, k) }) by {
                        lemma_assoc_push(before, id, dv, k);
                    }
                }
            }
        }
    }

    /// Starts a connection to a device at `now`. A connected peer is left
    /// as it is (`Ok(false)`: nothing to do); a peer being connected to is
    /// refused. Otherwise the peer is recorded as being connected to, and
    /// as discovered by hand at the given addresses (`Ok(true)`).
    pub fn begin_connection_at(&mut self, device_id: String, addresses: Vec<String>, now: i64) -> (r: Result<bool, NetworkError>)
        requires
            id_head_ok(device_id@),
        ensures
            ids_distinct(old(self)@) ==> ids_distinct(final(self)@),
            final(self)@.history == old(self)@.history,
            final(self)@.service_name == old(self)@.service_name,
            final(self)@.service_type == old(self)@.service_type,
            final(self)@.groups == old(self)@.groups,
            (assoc_get(old(self)@.peers, device_id@) matches Some(p) && p.connection_state == ConnectionState::Connected)
                ==> (r matches Ok(false) && final(self)@ == old(self)@),
            (assoc_get(old(self)@.peers, device_id@) matches Some(p) && p.connection_state == ConnectionState::Connecting)
                ==> (r matches Err(NetworkError::ConnectionInProgress) && final(self)@ == old(self)@),
            !(assoc_get(old(self)@.peers, device_id@) matches Some(p) && (p.connection_state == ConnectionState::Connected
                || p.connection_state == ConnectionState::Connecting)) ==> {
                &&& r matches Ok(true)
                &&& forall|k: Seq<char>| #[trigger] assoc_get(final(self)@.peers, k) == (if k == device_id@ {
                    Some(connecting_peer(old(self)@, device_id@, texts_view(addresses@), now))
                } else {
                    assoc_get(old(self)@.peers, k)
                })
                &&& forall|k: Seq<char>| #[trigger] assoc_get(final(self)@.discovered, k) == (if k == device_id@ {
                    Some(manual_discovery(old(self)@, device_id@, texts_view(addresses@), now))
                } else {
                    assoc_get(old(self)@.discovered, k)
                })
            },
    {
        match self.find_peer(device_id.as_str()) {
            Some(i) => {
                match self.peers[i].connection_state {
                    ConnectionState::Connected => { return Ok(false); }
                    ConnectionState::Connecting => { return Err(NetworkError::ConnectionInProgress); }
                    _ => {}
                }
            }
            None => {}
        }
        let head = head_of(device_id.as_str());
        let device_name = String::from_str("Device ").concat(head.as_str());
        let service_name = copy_string(&self.service_name).concat("-").concat(head.as_str());
        let discovery = DiscoveryInfo {
            device_id: copy_string(&device_id),
            addresses: copy_texts(&addresses),
            service_type: copy_string(&self.service_type),
            service_name,
            discovered_at: now,
            last_seen: now,
            discovery_method: DiscoveryMethod::Manual,
        };
        let kept = DiscoveryInfo {
            device_id: copy_string(&device_id),
            addresses,
            service_type: copy_string(&self.service_type),
            service_name: copy_string(&discovery.service_name),
            discovered_at: now,
            last_seen: now,
            discovery_method: DiscoveryMethod::Manual,
        };
        let ghost t0 = self@;
        let p = PeerInfo {
            device_id,
            device_name,
            is_online: false,
            is_authorized: false,
            device_cert: None,
            connection_state: ConnectionState::Connecting,
            last_seen: now,
            connection_attempts: 1,
            last_attempt: Some(now),
            discovery_info: Some(discovery),
            health: PeerHealth::Unknown,
            stats: create_default_peer_stats(now),
            config: PeerConfig::create_default_peer_config(),
            connection_start_time: None,
            last_health_check: None,
            tags: Vec::new(),
        };
        proof {
            assert(texts_view(p.tags@).to_set() =~= Set::<Seq<char>>::empty());
            assert(p@ == connecting_peer(t0, p.device_id@, texts_view(kept.addresses@), now));
        }
        self.put_peer(p);
        self.put_discovered(kept);
        Ok(true)
    }

    /// Connects to a device at `now`: a connected peer is left as it is,
    /// a peer being connected to is refused; otherwise the peer is recorded
    /// as being connected to (and as discovered by hand), the (simulated)
    /// attempt is made, and its outcome recorded.
    pub fn connect_to_peer_at(&mut self, device_id: String, addresses: Vec<String>, now: i64) -> (r: Result<(), NetworkError>)
        requires
            id_head_ok(device_id@),
        ensures
            ids_distinct(old(self)@) ==> ids_distinct(final(self)@),
            connect_outcome(old(self)@, device_id@, texts_view(addresses@), now, r, final(self)@),
    {
        let id = copy_string(&device_id);
        let ghost av = texts_view(addresses@);
        match self.begin_connection_at(device_id, addresses, now) {
            Ok(false) => Ok(()),
            Err(e) => Err(e),
            Ok(true) => {
                let outcome = simulate_connection_attempt(id.as_str());
                let ghost mid = self@;
                let r = self.finish_connection_at(id.as_str(), outcome, now);
                proof {
                    assert forall|k: Seq<char>| #[trigger] assoc_get(self@.peers, k) == (if k == id@ {
                        Some(if r is Ok {
                            connected_peer(connecting_peer(old(self)@, id@, av, now), now)
                        } else {
                            failed_peer(connecting_peer(old(self)@, id@, av, now), now)
                        })
                    } else {
                        assoc_get(old(self)@.peers, k)
                    }) by {
                        if k != id@ {
                            assert(assoc_get(self@.peers, k) == assoc_get(mid.peers, k));
                        }
                    }
                }
                r
            }
        }
    }

    /// Disconnects a peer and forgets it at once. For a known peer, gives
    /// the event to send to the listeners; an unknown peer gives none.
    pub fn force_disconnect_peer(&mut self, device_id: &str) -> (r: Option<PeerEvent>)
        ensures
            ids_distinct(old(self)@) ==> ids_distinct(final(self)@),
            r is Some <==> assoc_has(old(self)@.peers, device_id@),
            r matches Some(e) ==> is_disconnected_event(e, device_id@),
            final(self)@ == (PeerTableView { peers: crate::assoc::assoc_remove_all(old(self)@.peers, device_id@), ..old(self)@ }),
    {
        if self.forget_peer(device_id) {
            Some(PeerEvent::Disconnected(device_id.to_string()))
        } else {
            None
        }
    }

    /// Marks a peer disconnected at `now` (it is offline and last seen
    /// then); an unknown peer is left alone. For a known peer, gives what
    /// the host does next: send the disconnection event, and forget the
    /// peer [`FORGET_DISCONNECTED_AFTER_MS`] later.
    pub fn disconnect_peer_at(&mut self, device_id: &str, now: i64) -> (r: Option<Disconnection>)
        ensures
            r is Some <==> assoc_has(old(self)@.peers, device_id@),
            r matches Some(d) ==> is_disconnected_event(d.event, device_id@) && d.forget_after_ms == FORGET_DISCONNECTED_AFTER_MS,
            ids_distinct(old(self)@) ==> ids_distinct(final(self)@),
            final(self)@.discovered == old(self)@.discovered,
            final(self)@.history == old(self)@.history,
            final(self)@.service_name == old(self)@.service_name,
            final(self)@.service_type == old(self)@.service_type,
            final(self)@.groups == old(self)@.groups,
            forall|k: Seq<char>| #[trigger] assoc_get(final(self)@.peers, k) == (match assoc_get(old(self)@.peers, k) {
                Some(p) => if k == device_id@ {
                    Some(PeerInfoView { connection_state: ConnectionState::Disconnected, is_online: false, last_seen: now, ..p })
                } else {
                    Some(p)
                },
                None => None,
            }),
    {
        proof { crate::assoc::lemma_assoc_some(self@.peers, device_id@); }
        match self.find_peer(device_id) {
            Some(i) => {
                let mut p = copy_peer(&self.peers[i]);
                p.connection_state = ConnectionState::Disconnected;
                p.is_online = false;
                p.last_seen = now;
                self.set_peer(i, p);
                Some(Disconnection {
                    event: PeerEvent::Disconnected(device_id.to_string()),
                    forget_after_ms: FORGET_DISCONNECTED_AFTER_MS,
                })
            }
            None => None,
        }
    }

    /// Forgets a peer at once; says whether it was known.
    pub fn forget_peer(&mut self, device_id: &str) -> (r: bool)
        ensures
            ids_distinct(old(self)@) ==> ids_distinct(final(self)@),
            r == assoc_has(old(self)@.peers, device_id@),
            final(self)@.discovered == old(self)@.discovered,
            final(self)@.history == old(self)@.history,
            final(self)@.service_name == old(self)@.service_name,
            final(self)@.service_type == old(self)@.service_type,
            final(self)@.groups == old(self)@.groups,
            final(self)@.peers == crate::assoc::assoc_remove_all(old(self)@.peers, device_id@),
    {
        proof { crate::assoc::lemma_assoc_some(self@.peers, device_id@); }
        let had = self.find_peer(device_id).is_some();
        let ghost before = self@.peers;
        let mut kept: Vec<PeerInfo> = Vec::new();
        let mut i: usize = 0;
        while i < self.peers.len()
            invariant
                i <= self.peers@.len(),
                before == self@.peers,
                Seq::new(kept@.len(), |j: int| (kept@[j].device_id@, kept@[j]@))
                    == crate::assoc::assoc_remove_all(before.take(i as int), device_id@),
            decreases self.peers@.len() - i,
        {
            proof {
                assert(before.take(i + 1).drop_last() =~= before.take(i as int));
                assert(before.take(i + 1).last() == before[i as int]);
            }
            let ghost kv = Seq::new(kept@.len(), |j: int| (kept@[j].device_id@, kept@[j]@));
            if !str_eq(self.peers[i].device_id.as_str(), device_id) {
                kept.push(copy_peer(&self.peers[i]));
                proof {
                    assert(Seq::new(kept@.len(), |j: int| (kept@[j].device_id@, kept@[j]@)) =~= kv.push(before[i as int]));
                }
            }
            i = i + 1;
        }
        proof { assert(before.take(before.len() as int) =~= before); }
        self.peers = kept;
        proof {
            if crate::assoc::keys_distinct(before) {
                crate::assoc::lemma_remove_all_distinct(before, device_id@);
            }
        }
        had
    }

    /// Whether a peer is connected.
    pub fn is_peer_connected(&self, device_id: &str) -> (r: bool)
        ensures
            r == (assoc_get(self@.peers, device_id@) matches Some(p) && p.connection_state == ConnectionState::Connected),
    {
        match self.find_peer(device_id) {
            Some(i) => match self.peers[i].connection_state {
                ConnectionState::Connected => true,
                _ => false,
            },
            None => false,
        }
    }

    /// The connection state of a peer.
    pub fn get_peer_connection_state(&self, device_id: &str) -> (r: Option<ConnectionState>)
        ensures
            r == (match assoc_get(self@.peers, device_id@) {
                Some(p) => Some(p.connection_state),
                None => None,
            }),
    {
        match self.find_peer(device_id) {
            Some(i) => Some(self.peers[i].connection_state),
            None => None,
        }
    }

    /// The health of a peer.
    pub fn get_peer_health(&self, device_id: &str) -> (r: Option<PeerHealth>)
        ensures
            r == (match assoc_get(self@.peers, device_id@) {
                Some(p) => Some(p.health),
                None => None,
            }),
    {
        match self.find_peer(device_id) {
            Some(i) => Some(self.peers[i].health),
            None => None,
        }
    }

    /// Sets the health of a peer; an unknown peer is left alone.
    pub fn set_peer_health(&mut self, device_id: &str, health: PeerHealth)
        ensures
            ids_distinct(old(self)@) ==> ids_distinct(final(self)@),
            final(self)@.discovered == old(self)@.discovered,
            final(self)@.history == old(self)@.history,
            final(self)@.service_name == old(self)@.service_name,
            final(self)@.service_type == old(self)@.service_type,
            final(self)@.groups == old(self)@.groups,
            forall|k: Seq<char>| #[trigger] assoc_get(final(self)@.peers, k) == (match assoc_get(old(self)@.peers, k) {
                Some(p) => if k == device_id@ { Some(PeerInfoView { health, ..p }) } else { Some(p) },
                None => None,
            }),
    {
        match self.find_peer(device_id) {
            Some(i) => {
                let mut p = copy_peer(&self.peers[i]);
                p.health = health;
                self.set_peer(i, p);
            }
            None => {}
        }
    }

    /// Forgets the disconnected peers last seen more than 300 whole
    /// seconds before `now`.
    pub fn perform_network_maintenance_at(&mut self, now: i64)
        ensures
            ids_distinct(old(self)@) ==> ids_distinct(final(self)@),
            final(self)@.discovered == old(self)@.discovered,
            final(self)@.history == old(self)@.history,
            final(self)@.service_name == old(self)@.service_name,
            final(self)@.service_type == old(self)@.service_type,
            final(self)@.groups == old(self)@.groups,
            final(self)@.peers == kept_after_maintenance(old(self)@.peers, now),
    {
        let ghost before = self@.peers;
        let mut kept: Vec<PeerInfo> = Vec::new();
        let mut i: usize = 0;
        while i < self.peers.len()
            invariant
                i <= self.peers@.len(),
                before == self@.peers,
                Seq::new(kept@.len(), |j: int| (kept@[j].device_id@, kept@[j]@))
                    == kept_after_maintenance(before.take(i as int), now),
            decreases self.peers@.len() - i,
        {
            proof {
                assert(before.take(i + 1).drop_last() =~= before.take(i as int));
                assert(before.take(i + 1).last() == before[i as int]);
            }
            let ghost kv = Seq::new(kept@.len(), |j: int| (kept@[j].device_id@, kept@[j]@));
            let p = &self.peers[i];
            let disconnected = match p.connection_state {
                ConnectionState::Disconnected => true,
                _ => false,
            };
            let old_enough = (now as i128) - (p.last_seen as i128) >= 301_000i128;
            if !(disconnected && old_enough) {
                kept.push(copy_peer(p));
                proof {
                    assert(Seq::new(kept@.len(), |j: int| (kept@[j].device_id@, kept@[j]@)) =~= kv.push(before[i as int]));
                }
            }
            i = i + 1;
        }
        proof { assert(before.take(before.len() as int) =~= before); }
        self.peers = kept;
        proof {
            if crate::assoc::keys_distinct(before) {
                lemma_kept_distinct(before, now);
            }
        }
    }

    /// The periodic check at `now`: connected peers idle for more than 600
    /// whole seconds are degraded.
    pub fn check_peer_health_at(&mut self, now: i64)
        ensures
            ids_distinct(old(self)@) ==> ids_distinct(final(self)@),
            final(self)@.discovered == old(self)@.discovered,
            final(self)@.history == old(self)@.history,
            final(self)@.service_name == old(self)@.service_name,
            final(self)@.service_type == old(self)@.service_type,
            final(self)@.groups == old(self)@.groups,
            final(self)@.peers == Seq::new(old(self)@.peers.len(), |i: int| (old(self)@.peers[i].0, checked_peer(old(self)@.peers[i].1, now))),
    {
        let ghost before = self@.peers;
        let mut i: usize = 0;
        while i < self.peers.len()
            invariant
                i <= self.peers@.len(),
                self@.peers.len() == before.len(),
                self@.discovered == old(self)@.discovered,
                self@.history == old(self)@.history,
                self@.service_name == old(self)@.service_name,
                self@.service_type == old(self)@.service_type,
                self@.groups == old(self)@.groups,
                forall|j: int| 0 <= j < i ==> #[trigger] self@.peers[j] == (before[j].0, checked_peer(before[j].1, now)),
                forall|j: int| i <= j < before.len() ==> #[trigger] self@.peers[j] == before[j],
            decreases self.peers@.len() - i,
        {
            proof { assert(self@.peers[i as int] == before[i as int]); }
            let p = &self.peers[i];
            let connected = match p.connection_state {
                ConnectionState::Connected => true,
                _ => false,
            };
            if connected && (now as i128) - (p.stats.last_activity as i128) >= 601_000i128 {
                let mut q = copy_peer(p);
                q.health = PeerHealth::Degraded;
                let ghost v0 = self@.peers;
                self.peers.set(i, q);
                proof {
                    assert forall|j: int| 0 <= j < v0.len() && j != i implies #[trigger] self@.peers[j] == v0[j] by {}
                }
            }
            i = i + 1;
        }
        proof {
            assert(self@.peers =~= Seq::new(before.len(), |i: int| (before[i].0, checked_peer(before[i].1, now))));
        }
    }

    /// A health check at `now`: each connected peer is checked and seen
    /// then. Gives the changes of health, in peer order.
    pub fn perform_health_checks_at(&mut self, now: i64) -> (r: Vec<(String, PeerHealth, PeerHealth)>)
        ensures
            ids_distinct(old(self)@) ==> ids_distinct(final(self)@),
            final(self)@.discovered == old(self)@.discovered,
            final(self)@.history == old(self)@.history,
            final(self)@.service_name == old(self)@.service_name,
            final(self)@.service_type == old(self)@.service_type,
            final(self)@.groups == old(self)@.groups,
            final(self)@.peers == Seq::new(old(self)@.peers.len(), |i: int| (old(self)@.peers[i].0, health_checked_peer(old(self)@.peers[i].1, now))),
            Seq::new(r@.len(), |i: int| (r@[i].0@, r@[i].1, r@[i].2)) == health_changes(old(self)@.peers, now),
    {
        let ghost before = self@.peers;
        let mut events: Vec<(String, PeerHealth, PeerHealth)> = Vec::new();
        let mut i: usize = 0;
        while i < self.peers.len()
            invariant
                i <= self.peers@.len(),
                self@.peers.len() == before.len(),
                self@.discovered == old(self)@.discovered,
                self@.history == old(self)@.history,
                self@.service_name == old(self)@.service_name,
                self@.service_type == old(self)@.service_type,
                self@.groups == old(self)@.groups,
                forall|j: int| 0 <= j < i ==> #[trigger] self@.peers[j] == (before[j].0, health_checked_peer(before[j].1, now)),
                forall|j: int| i <= j < before.len() ==> #[trigger] self@.peers[j] == before[j],
                Seq::new(events@.len(), |k: int| (events@[k].0@, events@[k].1, events@[k].2)) == health_changes(before.take(i as int), now),
            decreases self.peers@.len() - i,
        {
            proof {
                assert(before.take(i + 1).drop_last() =~= before.take(i as int));
                assert(before.take(i + 1).last() == before[i as int]);
                assert(self@.peers[i as int] == before[i as int]);
            }
            let ghost ev = Seq::new(events@.len(), |k: int| (events@[k].0@, events@[k].1, events@[k].2));
            let p = &self.peers[i];
            let connected = match p.connection_state {
                ConnectionState::Connected => true,
                _ => false,
            };
            if connected {
                let old_health = p.health;
                let new_health = if (now as i128) - (p.stats.last_activity as i128) >= 301_000i128 {
                    PeerHealth::Degraded
                } else {
                    PeerHealth::Healthy
                };
                let changed = !(old_health == new_health);
                if changed {
                    events.push((copy_string(&p.device_id), old_health, new_health));
                    proof {
                        assert(Seq::new(events@.len(), |k: int| (events@[k].0@, events@[k].1, events@[k].2))
                            =~= ev.push((before[i as int].0, old_health, new_health)));
                    }
                }
                let mut q = copy_peer(p);
                q.last_health_check = Some(now);
                q.health = new_health;
                q.last_seen = now;
                let ghost v0 = self@.peers;
                self.peers.set(i, q);
                proof {
                    assert forall|j: int| 0 <= j < v0.len() && j != i implies #[trigger] self@.peers[j] == v0[j] by {}
                }
            }
            i = i + 1;
        }
        proof {
            assert(before.take(before.len() as int) =~= before);
            assert(self@.peers =~= Seq::new(before.len(), |i: int| (before[i].0, health_checked_peer(before[i].1, now))));
        }
        events
    }

    /// Gives a peer a tag; an unknown peer is left alone.
    pub fn add_peer_tag(&mut self, device_id: &str, tag: String)
        ensures
            ids_distinct(old(self)@) ==> ids_distinct(final(self)@),
            final(self)@.discovered == old(self)@.discovered,
            final(self)@.history == old(self)@.history,
            final(self)@.service_name == old(self)@.service_name,
            final(self)@.service_type == old(self)@.service_type,
            final(self)@.groups == old(self)@.groups,
            forall|k: Seq<char>| #[trigger] assoc_get(final(self)@.peers, k) == (match assoc_get(old(self)@.peers, k) {
                Some(p) => if k == device_id@ { Some(PeerInfoView { tags: p.tags.insert(tag@), ..p }) } else { Some(p) },
                None => None,
            }),
    {
        match self.find_peer(device_id) {
            Some(i) => {
                let mut p = copy_peer(&self.peers[i]);
                let ghost t0 = texts_view(p.tags@);
                if !contains_text_in(&p.tags, tag.as_str()) {
                    p.tags.push(tag);
                    proof {
                        assert(texts_view(p.tags@) =~= t0.push(tag@));
                        assert forall|x: Seq<char>| #[trigger] texts_view(p.tags@).contains(x) == t0.to_set().insert(tag@).contains(x) by {
                            let t1 = texts_view(p.tags@);
                            if t1.contains(x) {
                                let k = choose|k: int| 0 <= k < t1.len() && t1[k] == x;
                                if k < t0.len() { assert(t0[k] == x); }
                            }
                            if t0.contains(x) {
                                let k = choose|k: int| 0 <= k < t0.len() && t0[k] == x;
                                assert(t1[k] == x);
                            }
                            if x == tag@ { assert(t1[t0.len() as int] == x); }
                        }
                        assert(p@.tags =~= t0.to_set().insert(tag@));
                    }
                } else {
                    proof { assert(p@.tags =~= t0.to_set().insert(tag@)); }
                }
                self.set_peer(i, p);
            }
            None => {}
        }
    }

    /// Takes a tag from a peer; an unknown peer is left alone.
    pub fn remove_peer_tag(&mut self, device_id: &str, tag: &str)
        ensures
            ids_distinct(old(self)@) ==> ids_distinct(final(self)@),
            final(self)@.discovered == old(self)@.discovered,
            final(self)@.history == old(self)@.history,
            final(self)@.service_name == old(self)@.service_name,
            final(self)@.service_type == old(self)@.service_type,
            final(self)@.groups == old(self)@.groups,
            forall|k: Seq<char>| #[trigger] assoc_get(final(self)@.peers, k) == (match assoc_get(old(self)@.peers, k) {
                Some(p) => if k == device_id@ { Some(PeerInfoView { tags: p.tags.remove(tag@), ..p }) } else { Some(p) },
                None => None,
            }),
    {
        match self.find_peer(device_id) {
            Some(i) => {
                let mut p = copy_peer(&self.peers[i]);
                let ghost t0 = texts_view(p.tags@);
                let mut kept: Vec<String> = Vec::new();
                let mut j: usize = 0;
                while j < p.tags.len()
                    invariant
                        j <= p.tags@.len(),
                        t0 == texts_view(p.tags@),
                        forall|x: Seq<char>| #[trigger] texts_view(kept@).contains(x)
                            == (x != tag@ && exists|l: int| 0 <= l < j && t0[l] == x),
                    decreases p.tags@.len() - j,
                {
                    let ghost k0 = texts_view(kept@);
                    if !str_eq(p.tags[j].as_str(), tag) {
                        kept.push(copy_string(&p.tags[j]));
                        proof {
                            assert(texts_view(kept@) =~= k0.push(t0[j as int]));
                            assert forall|x: Seq<char>| #[trigger] texts_view(kept@).contains(x)
                                == (x != tag@ && exists|l: int| 0 <= l < j + 1 && t0[l] == x) by {
                                let k1 = texts_view(kept@);
                                if k1.contains(x) {
                                    let k = choose|k: int| 0 <= k < k1.len() && k1[k] == x;
                                    if k < k0.len() { assert(k0[k] == x); assert(k0.contains(x)); }
                                }
                                if k0.contains(x) {
                                    let k = choose|k: int| 0 <= k < k0.len() && k0[k] == x;
                                    assert(k1[k] == x);
                                }
                                if x == t0[j as int] { assert(k1[k0.len() as int] == x); }
                                if exists|l: int| 0 <= l < j + 1 && t0[l] == x {
                                    let l = choose|l: int| 0 <= l < j + 1 && t0[l] == x;
                                    if l < j { assert(exists|l: int| 0 <= l < j && t0[l] == x); }
                                }
                            }
                        }
                    } else {
                        proof {
                            assert forall|x: Seq<char>| #[trigger] texts_view(kept@).contains(x)
                                == (x != tag@ && exists|l: int| 0 <= l < j + 1 && t0[l] == x) by {
                                if x != tag@ && exists|l: int| 0 <= l < j + 1 && t0[l] == x {
                                    let l = choose|l: int| 0 <= l < j + 1 && t0[l] == x;
                                    if l < j { assert(exists|l: int| 0 <= l < j && t0[l] == x); }
                                }
                            }
                        }
                    }
                    j = j + 1;
                }
                p.tags = kept;
                proof {
                    assert forall|x: Seq<char>| #[trigger] p@.tags.contains(x) == t0.to_set().remove(tag@).contains(x) by {
                        if t0.contains(x) && x != tag@ {
                            let l = choose|l: int| 0 <= l < t0.len() && t0[l] == x;
                            assert(exists|l: int| 0 <= l < t0.len() && t0[l] == x);
                        }
                    }
                    assert(p@.tags =~= t0.to_set().remove(tag@));
                }
                self.set_peer(i, p);
            }
            None => {}
        }
    }

    /// The peers with a tag, in order.
    pub fn get_peers_by_tag(&self, tag: &str) -> (r: Vec<String>)
        ensures
            texts_view(r@) == peer_ids_where(self@.peers, |p: PeerInfoView| p.tags.contains(tag@)),
    {
        let ghost f = |p: PeerInfoView| p.tags.contains(tag@);
        let mut r: Vec<String> = Vec::new();
        let mut i: usize = 0;
        while i < self.peers.len()
            invariant
                i <= self.peers@.len(),
                f == (|p: PeerInfoView| p.tags.contains(tag@)),
                texts_view(r@) == peer_ids_where(self@.peers.take(i as int), f),
            decreases self.peers@.len() - i,
        {
            proof {
                assert(self@.peers.take(i + 1).drop_last() =~= self@.peers.take(i as int));
                assert(self@.peers.take(i + 1).last() == self@.peers[i as int]);
            }
            let ghost r0 = texts_view(r@);
            if contains_text_in(&self.peers[i].tags, tag) {
                r.push(copy_string(&self.peers[i].device_id));
                proof { assert(texts_view(r@) =~= r0.push(self@.peers[i as int].0)); }
            }
            i = i + 1;
        }
        proof { assert(self@.peers.take(self@.peers.len() as int) =~= self@.peers); }
        r
    }

    /// The peers with a health, in order.
    pub fn get_peers_by_health(&self, health: PeerHealth) -> (r: Vec<String>)
        ensures
            texts_view(r@) == peer_ids_where(self@.peers, |p: PeerInfoView| p.health == health),
    {
        let ghost f = |p: PeerInfoView| p.health == health;
        let mut r: Vec<String> = Vec::new();
        let mut i: usize = 0;
        while i < self.peers.len()
            invariant
                i <= self.peers@.len(),
                f == (|p: PeerInfoView| p.health == health),
                texts_view(r@) == peer_ids_where(self@.peers.take(i as int), f),
            decreases self.peers@.len() - i,
        {
            proof {
                assert(self@.peers.take(i + 1).drop_last() =~= self@.peers.take(i as int));
                assert(self@.peers.take(i + 1).last() == self@.peers[i as int]);
            }
            let ghost r0 = texts_view(r@);
            if self.peers[i].health == health {
                r.push(copy_string(&self.peers[i].device_id));
                proof { assert(texts_view(r@) =~= r0.push(self@.peers[i as int].0)); }
            }
            i = i + 1;
        }
        proof { assert(self@.peers.take(self@.peers.len() as int) =~= self@.peers); }
        r
    }

    /// How many peers are known, connected, healthy and unhealthy (each
    /// count cut to 32 bits).
    pub fn get_peer_management_summary(&self) -> (r: PeerSummary)
        ensures
            r.total_peers == self@.peers.len() as u32,
            r.connected_peers == count_where(self@.peers, |p: PeerInfoView| p.connection_state == ConnectionState::Connected) as u32,
            r.healthy_peers == count_where(self@.peers, |p: PeerInfoView| p.health == PeerHealth::Healthy) as u32,
            r.unhealthy_peers == count_where(self@.peers, |p: PeerInfoView| p.health == PeerHealth::Unhealthy) as u32,
    {
        let ghost fc = |p: PeerInfoView| p.connection_state == ConnectionState::Connected;
        let ghost fh = |p: PeerInfoView| p.health == PeerHealth::Healthy;
        let ghost fu = |p: PeerInfoView| p.health == PeerHealth::Unhealthy;
        let mut connected: usize = 0;
        let mut healthy: usize = 0;
        let mut unhealthy: usize = 0;
        let mut i: usize = 0;
        while i < self.peers.len()
            invariant
                i <= self.peers@.len(),
                fc == (|p: PeerInfoView| p.connection_state == ConnectionState::Connected),
                fh == (|p: PeerInfoView| p.health == PeerHealth::Healthy),
                fu == (|p: PeerInfoView| p.health == PeerHealth::Unhealthy),
                connected == count_where(self@.peers.take(i as int), fc),
                healthy == count_where(self@.peers.take(i as int), fh),
                unhealthy == count_where(self@.peers.take(i as int), fu),
                connected <= i && healthy <= i && unhealthy <= i,
            decreases self.peers@.len() - i,
        {
            proof {
                assert(self@.peers.take(i + 1).drop_last() =~= self@.peers.take(i as int));
                assert(self@.peers.take(i + 1).last() == self@.peers[i as int]);
            }
            let p = &self.peers[i];
            match p.connection_state {
                ConnectionState::Connected => { connected = connected + 1; }
                _ => {}
            }
            match p.health {
                PeerHealth::Healthy => { healthy = healthy + 1; }
                PeerHealth::Unhealthy => { unhealthy = unhealthy + 1; }
                _ => {}
            }
            i = i + 1;
        }
        proof { assert(self@.peers.take(self@.peers.len() as int) =~= self@.peers); }
        PeerSummary {
            total_peers: self.peers.len() as u32,
            connected_peers: connected as u32,
            healthy_peers: healthy as u32,
            unhealthy_peers: unhealthy as u32,
        }
    }

    /// The statistics of a peer.
    pub fn get_peer_stats(&self, device_id: &str) -> (r: Option<PeerStats>)
        ensures
            r == (match assoc_get(self@.peers, device_id@) {
                Some(p) => Some(p.stats),
                None => None,
            }),
    {
        match self.find_peer(device_id) {
            Some(i) => Some(self.peers[i].stats),
            None => None,
        }
    }

    /// The statistics of every known peer, in order.
    pub fn get_all_peer_stats(&self) -> (r: Vec<(String, PeerStats)>)
        ensures
            r@.len() == self@.peers.len(),
            forall|i: int| 0 <= i < r@.len() ==> (#[trigger] r@[i]).0@ == self@.peers[i].0 && r@[i].1 == self@.peers[i].1.stats,
    {
        let mut r: Vec<(String, PeerStats)> = Vec::new();
        let mut i: usize = 0;
        while i < self.peers.len()
            invariant
                i <= self.peers@.len(),
                r@.len() == i,
                forall|j: int| 0 <= j < i ==> (#[trigger] r@[j]).0@ == self@.peers[j].0 && r@[j].1 == self@.peers[j].1.stats,
            decreases self.peers@.len() - i,
        {
            r.push((copy_string(&self.peers[i].device_id), self.peers[i].stats));
            i = i + 1;
        }
        r
    }

    fn find_history(&self, device_id: &str) -> (r: Option<usize>)
        ensures
            match r {
                Some(i) => i < self@.history.len() && self@.history[i as int].0 == device_id@
                    && (forall|j: int| 0 <= j < i ==> self@.history[j].0 != device_id@)
                    && assoc_get(self@.history, device_id@) == Some(self@.history[i as int].1),
                None => assoc_get(self@.history, device_id@) is None
                    && (forall|j: int| 0 <= j < self@.history.len() ==> self@.history[j].0 != device_id@),
            },
    {
        let mut i: usize = 0;
        while i < self.history.len()
            invariant
                i <= self.history@.len(),
                forall|j: int| 0 <= j < i ==> self@.history[j].0 != device_id@,
            decreases self.history@.len() - i,
        {
            if str_eq(self.history[i].0.as_str(), device_id) {
                proof { lemma_assoc_found(self@.history, i as int, device_id@); }
                return Some(i);
            }
            i = i + 1;
        }
        proof { lemma_assoc_absent(self@.history, device_id@); }
        None
    }

    /// The statistics history of a peer, oldest first.
    pub fn get_peer_stats_history(&self, device_id: &str) -> (r: Vec<PeerStats>)
        ensures
            r@ == (match assoc_get(self@.history, device_id@) {
                Some(h) => h,
                None => Seq::empty(),
            }),
    {
        match self.find_history(device_id) {
            Some(i) => {
                let h = &self.history[i].1;
                let mut r: Vec<PeerStats> = Vec::new();
                let mut j: usize = 0;
                while j < h.len()
                    invariant
                        j <= h@.len(),
                        r@ == h@.take(j as int),
                    decreases h@.len() - j,
                {
                    r.push(h[j]);
                    proof { assert(r@ =~= h@.take(j + 1)); }
                    j = j + 1;
                }
                proof { assert(h@.take(h@.len() as int) =~= h@); }
                r
            }
            None => Vec::new(),
        }
    }

    /// Sets the statistics of a known peer and appends them to its history,
    /// which keeps the last [`STATS_HISTORY_LIMIT`] entries; an unknown peer
    /// is left alone.
    pub fn update_peer_stats(&mut self, device_id: &str, stats: PeerStats)
        ensures
            ids_distinct(old(self)@) ==> ids_distinct(final(self)@),
            final(self)@.discovered == old(self)@.discovered,
            final(self)@.service_name == old(self)@.service_name,
            final(self)@.service_type == old(self)@.service_type,
            final(self)@.groups == old(self)@.groups,
            assoc_get(old(self)@.peers, device_id@) is None ==> final(self)@ == old(self)@,
            forall|k: Seq<char>| #[trigger] assoc_get(final(self)@.peers, k) == (match assoc_get(old(self)@.peers, k) {
                Some(p) => if k == device_id@ { Some(PeerInfoView { stats, ..p }) } else { Some(p) },
                None => None,
            }),
            forall|k: Seq<char>| #[trigger] assoc_get(final(self)@.history, k) == (
                if k == device_id@ && assoc_get(old(self)@.peers, k) is Some {
                    Some(history_push(match assoc_get(old(self)@.history, k) {
                        Some(h) => h,
                        None => Seq::empty(),
                    }, stats))
                } else {
                    assoc_get(old(self)@.history, k)
                }),
    {
        match self.find_peer(device_id) {
            None => {}
            Some(i) => {
                let mut p = copy_peer(&self.peers[i]);
                p.stats = stats;
                self.set_peer(i, p);
                let ghost before = self@.history;
                match self.find_history(device_id) {
                    Some(j) => {
                        let mut h: Vec<PeerStats> = Vec::new();
                        let old_h = &self.history[j].1;
                        let ghost oh = old_h@;
                        let start: usize = if old_h.len() >= STATS_HISTORY_LIMIT { 1 } else { 0 };
                        let mut k: usize = start;
                        while k < old_h.len()
                            invariant
                                start <= k <= old_h@.len(),
                                oh == old_h@,
                                h@ == oh.subrange(start as int, k as int),
                            decreases old_h@.len() - k,
                        {
                            h.push(old_h[k]);
                            proof { assert(h@ =~= oh.subrange(start as int, k + 1)); }
                            k = k + 1;
                        }
                        h.push(stats);
                        proof {
                            assert(h@ =~= history_push(oh, stats));
                        }
                        let name = copy_string(&self.history[j].0);
                        let ghost hv = h@;
                        self.history.set(j, (name, h));
                        proof {
                            assert(self@.history =~= before.update(j as int, (device_id@, hv)));
                            assert forall|n: Seq<char>| #[trigger] assoc_get(self@.history, n)
                                == (if n == device_id@ { Some(hv) } else { assoc_get(before, n) }) by {
                                lemma_assoc_update(before, j as int, hv, n);
                            }
                        }
                    }
                    None => {
                        let mut h: Vec<PeerStats> = Vec::new();
                        h.push(stats);
                        let ghost hv = h@;
                        proof { assert(hv =~= history_push(Seq::empty(), stats)); }
                        self.history.push((device_id.to_string(), h));
                        proof {
                            assert(self@.history =~= before.push((device_id@, hv)));
                            assert forall|n: Seq<char>| #[trigger] assoc_get(self@.history, n)
                                == (if n == device_id@ { Some(hv) } else { assoc_get(before, n) }) by {
                                lemma_assoc_push(before, device_id@, hv, n);
                            }
                        }
                    }
                }
            }
        }
    }

    /// Records a discovered peer at `now`, in place of any record of it.
    pub fn add_discovered_peer_at(&mut self, device_id: String, addresses: Vec<String>, method: DiscoveryMethod, now: i64)
        requires
            id_head_ok(device_id@),
        ensures
            ids_distinct(old(self)@) ==> ids_distinct(final(self)@),
            final(self)@.peers == old(self)@.peers,
            final(self)@.history == old(self)@.history,
            final(self)@.service_name == old(self)@.service_name,
            final(self)@.service_type == old(self)@.service_type,
            final(self)@.groups == old(self)@.groups,
            forall|k: Seq<char>| #[trigger] assoc_get(final(self)@.discovered, k) == (if k == device_id@ {
                Some(DiscoveryInfoView { discovery_method: method, ..manual_discovery(old(self)@, device_id@, texts_view(addresses@), now) })
            } else {
                assoc_get(old(self)@.discovered, k)
            }),
    {
        let head = head_of(device_id.as_str());
        let service_name = copy_string(&self.service_name).concat("-").concat(head.as_str());
        let d = DiscoveryInfo {
            device_id,
            addresses,
            service_type: copy_string(&self.service_type),
            service_name,
            discovered_at: now,
            last_seen: now,
            discovery_method: method,
        };
        self.put_discovered(d);
    }

    /// Forgets a discovered peer.
    pub fn remove_discovered_peer(&mut self, device_id: &str)
        ensures
            ids_distinct(old(self)@) ==> ids_distinct(final(self)@),
            final(self)@.peers == old(self)@.peers,
            final(self)@.history == old(self)@.history,
            final(self)@.service_name == old(self)@.service_name,
            final(self)@.service_type == old(self)@.service_type,
            final(self)@.groups == old(self)@.groups,
            final(self)@.discovered == crate::assoc::assoc_remove_all(old(self)@.discovered, device_id@),
    {
        let ghost before = self@.discovered;
        let mut kept: Vec<DiscoveryInfo> = Vec::new();
        let mut i: usize = 0;
        while i < self.discovered.len()
            invariant
                i <= self.discovered@.len(),
                before == self@.discovered,
                Seq::new(kept@.len(), |j: int| (kept@[j].device_id@, kept@[j]@))
                    == crate::assoc::assoc_remove_all(before.take(i as int), device_id@),
            decreases self.discovered@.len() - i,
        {
            proof {
                assert(before.take(i + 1).drop_last() =~= before.take(i as int));
                assert(before.take(i + 1).last() == before[i as int]);
            }
            let ghost kv = Seq::new(kept@.len(), |j: int| (kept@[j].device_id@, kept@[j]@));
            if !str_eq(self.discovered[i].device_id.as_str(), device_id) {
                kept.push(copy_discovery(&self.discovered[i]));
                proof {
                    assert(Seq::new(kept@.len(), |j: int| (kept@[j].device_id@, kept@[j]@)) =~= kv.push(before[i as int]));
                }
            }
            i = i + 1;
        }
        proof { assert(before.take(before.len() as int) =~= before); }
        self.discovered = kept;
        proof {
            if crate::assoc::keys_distinct(before) {
                crate::assoc::lemma_remove_all_distinct(before, device_id@);
            }
        }
    }

    /// Every discovered peer, in order.
    pub fn get_discovered_peers(&self) -> (r: Vec<DiscoveryInfo>)
        ensures
            Seq::new(r@.len(), |i: int| r@[i]@) == Seq::new(self@.discovered.len(), |i: int| self@.discovered[i].1),
    {
        let mut r: Vec<DiscoveryInfo> = Vec::new();
        let mut i: usize = 0;
        while i < self.discovered.len()
            invariant
                i <= self.discovered@.len(),
                r@.len() == i,
                forall|k: int| 0 <= k < i ==> #[trigger] r@[k]@ == self@.discovered[k].1,
            decreases self.discovered@.len() - i,
        {
            r.push(copy_discovery(&self.discovered[i]));
            i = i + 1;
        }
        proof {
            assert(Seq::new(r@.len(), |i: int| r@[i]@) =~= Seq::new(self@.discovered.len(), |i: int| self@.discovered[i].1));
        }
        r
    }

    /// The type of service this node announces.
    pub(crate) fn service_type_text(&self) -> (r: String)
        ensures
            r@ == self@.service_type,
    {
        copy_string(&self.service_type)
    }

    /// The peers found by mDNS, in order.
    pub fn get_mdns_peers(&self) -> (r: Vec<DiscoveryInfo>)
        ensures
            Seq::new(r@.len(), |i: int| r@[i]@) == discovered_by(self@.discovered, DiscoveryMethod::Mdns),
    {
        self.get_discovered_peers_by_method(DiscoveryMethod::Mdns)
    }

    /// The peers found by hand or by a scan, in order.
    pub fn get_manually_discovered_peers(&self) -> (r: Vec<DiscoveryInfo>)
        ensures
            Seq::new(r@.len(), |i: int| r@[i]@) == discovered_by(self@.discovered, DiscoveryMethod::Manual),
    {
        self.get_discovered_peers_by_method(DiscoveryMethod::Manual)
    }

    /// The discovered peers found by a method, in order.
    pub fn get_discovered_peers_by_method(&self, method: DiscoveryMethod) -> (r: Vec<DiscoveryInfo>)
        ensures
            Seq::new(r@.len(), |i: int| r@[i]@) == discovered_by(self@.discovered, method),
    {
        let mut r: Vec<DiscoveryInfo> = Vec::new();
        let mut i: usize = 0;
        while i < self.discovered.len()
            invariant
                i <= self.discovered@.len(),
                Seq::new(r@.len(), |k: int| r@[k]@) == discovered_by(self@.discovered.take(i as int), method),
            decreases self.discovered@.len() - i,
        {
            proof {
                assert(self@.discovered.take(i + 1).drop_last() =~= self@.discovered.take(i as int));
                assert(self@.discovered.take(i + 1).last() == self@.discovered[i as int]);
            }
            let ghost r0 = Seq::new(r@.len(), |k: int| r@[k]@);
            if self.discovered[i].discovery_method == method {
                r.push(copy_discovery(&self.discovered[i]));
                proof { assert(Seq::new(r@.len(), |k: int| r@[k]@) =~= r0.push(self@.discovered[i as int].1)); }
            }
            i = i + 1;
        }
        proof { assert(self@.discovered.take(self@.discovered.len() as int) =~= self@.discovered); }
        r
    }

    /// The settings of a peer.
    pub fn get_peer_config(&self, device_id: &str) -> (r: Option<PeerConfig>)
        ensures
            match r {
                Some(c) => assoc_get(self@.peers, device_id@) matches Some(p) && p.config == c@,
                None => assoc_get(self@.peers, device_id@) is None,
            },
    {
        match self.find_peer(device_id) {
            Some(i) => Some(copy_config(&self.peers[i].config)),
            None => None,
        }
    }

    /// Sets the settings of a known peer and moves it to the group they
    /// name (out of every other group; the group is made when missing). An
    /// unknown peer is left alone.
    pub fn update_peer_config(&mut self, device_id: &str, config: PeerConfig)
        ensures
            ids_distinct(old(self)@) ==> ids_distinct(final(self)@),
            final(self)@.discovered == old(self)@.discovered,
            final(self)@.history == old(self)@.history,
            final(self)@.service_name == old(self)@.service_name,
            final(self)@.service_type == old(self)@.service_type,
            assoc_get(old(self)@.peers, device_id@) is None ==> final(self)@ == old(self)@,
            forall|k: Seq<char>| #[trigger] assoc_get(final(self)@.peers, k) == (match assoc_get(old(self)@.peers, k) {
                Some(p) => if k == device_id@ { Some(PeerInfoView { config: config@, ..p }) } else { Some(p) },
                None => None,
            }),
            assoc_get(old(self)@.peers, device_id@) is Some ==> forall|g: PeerGroupView| #[trigger] assoc_get(final(self)@.groups, g)
                == (if g == config.group@ {
                    Some(match assoc_get(old(self)@.groups, g) {
                        Some(m) => m.remove(device_id@).insert(device_id@),
                        None => Set::empty().insert(device_id@),
                    })
                } else {
                    match assoc_get(old(self)@.groups, g) {
                        Some(m) => Some(m.remove(device_id@)),
                        None => None,
                    }
                }),
    {
        let i = match self.find_peer(device_id) {
            Some(i) => i,
            None => { return; }
        };
        let mut p = copy_peer(&self.peers[i]);
        let group = copy_group(&config.group);
        p.config = config;
        self.set_peer(i, p);
        let ghost gv = group@;
        let ghost id = device_id@;
        let ghost before = self@.groups;
        let ghost f = |g: PeerGroupView, m: Set<Seq<char>>| if g == gv { m.remove(id).insert(id) } else { m.remove(id) };
        let mut out: Vec<(PeerGroup, Vec<String>)> = Vec::new();
        let mut found = false;
        let mut j: usize = 0;
        while j < self.groups.len()
            invariant
                j <= self.groups@.len(),
                before == self@.groups,
                gv == group@,
                id == device_id@,
                f == (|g: PeerGroupView, m: Set<Seq<char>>| if g == gv { m.remove(id).insert(id) } else { m.remove(id) }),
                Seq::new(out@.len(), |k: int| (out@[k].0@, texts_view(out@[k].1@).to_set()))
                    == Seq::new(j as nat, |k: int| (before[k].0, f(before[k].0, before[k].1))),
                found == (exists|k: int| 0 <= k < j && before[k].0 == gv),
            decreases self.groups@.len() - j,
        {
            let ghost o0 = Seq::new(out@.len(), |k: int| (out@[k].0@, texts_view(out@[k].1@).to_set()));
            let entry = &self.groups[j];
            let mut members: Vec<String> = Vec::new();
            let ghost src = texts_view(entry.1@);
            let mut l: usize = 0;
            while l < entry.1.len()
                invariant
                    l <= entry.1@.len(),
                    src == texts_view(entry.1@),
                    id == device_id@,
                    forall|x: Seq<char>| #[trigger] texts_view(members@).contains(x)
                        == (x != id && exists|q: int| 0 <= q < l && src[q] == x),
                decreases entry.1@.len() - l,
            {
                let ghost m0 = texts_view(members@);
                if !str_eq(entry.1[l].as_str(), device_id) {
                    members.push(copy_string(&entry.1[l]));
                    proof {
                        let m1 = texts_view(members@);
                        assert(m1 =~= m0.push(src[l as int]));
                        assert forall|x: Seq<char>| #[trigger] m1.contains(x) == (x != id && exists|q: int| 0 <= q < l + 1 && src[q] == x) by {
                            if m1.contains(x) {
                                let k = choose|k: int| 0 <= k < m1.len() && m1[k] == x;
                                if k < m0.len() { assert(m0[k] == x); assert(m0.contains(x)); }
                            }
                            if m0.contains(x) {
                                let k = choose|k: int| 0 <= k < m0.len() && m0[k] == x;
                                assert(m1[k] == x);
                            }
                            if x == src[l as int] { assert(m1[m0.len() as int] == x); }
                            if exists|q: int| 0 <= q < l + 1 && src[q] == x {
                                let q = choose|q: int| 0 <= q < l + 1 && src[q] == x;
                                if q < l { assert(exists|q: int| 0 <= q < l && src[q] == x); }
                            }
                        }
                    }
                } else {
                    proof {
                        assert forall|x: Seq<char>| #[trigger] texts_view(members@).contains(x) == (x != id && exists|q: int| 0 <= q < l + 1 && src[q] == x) by {
                            if x != id && exists|q: int| 0 <= q < l + 1 && src[q] == x {
                                let q = choose|q: int| 0 <= q < l + 1 && src[q] == x;
                                if q < l { assert(exists|q: int| 0 <= q < l && src[q] == x); }
                            }
                        }
                    }
                }
                l = l + 1;
            }
            let same = group_eq(&entry.0, &group);
            if same {
                let ghost m0 = texts_view(members@);
                members.push(device_id.to_string());
                proof {
                    let m1 = texts_view(members@);
                    assert(m1 =~= m0.push(id));
                    assert forall|x: Seq<char>| #[trigger] m1.contains(x) == (m0.contains(x) || x == id) by {
                        if m1.contains(x) {
                            let k = choose|k: int| 0 <= k < m1.len() && m1[k] == x;
                            if k < m0.len() { assert(m0[k] == x); }
                        }
                        if m0.contains(x) {
                            let k = choose|k: int| 0 <= k < m0.len() && m0[k] == x;
                            assert(m1[k] == x);
                        }
                        if x == id { assert(m1[m0.len() as int] == x); }
                    }
                }
                found = true;
            }
            proof {
                let m = texts_view(members@).to_set();
                let want = f(before[j as int].0, before[j as int].1);
                assert(before[j as int].1 == src.to_set());
                assert forall|x: Seq<char>| #[trigger] m.contains(x) == want.contains(x) by {
                    if src.contains(x) {
                        let q = choose|q: int| 0 <= q < src.len() && src[q] == x;
                        assert(exists|q: int| 0 <= q < entry.1@.len() && src[q] == x);
                    }
                }
                assert(m =~= want);
            }
            let ghost mset = texts_view(members@).to_set();
            proof {
                assert(o0.len() == out@.len());
                assert(o0.len() == j);
            }
            let g2 = copy_group(&entry.0);
            proof { assert(g2@ == before[j as int].0); }
            let ghost out0 = out@;
            out.push((g2, members));
            proof {
                let tgt = Seq::new((j + 1) as nat, |k: int| (before[k].0, f(before[k].0, before[k].1)));
                let cur = Seq::new(out@.len(), |k: int| (out@[k].0@, texts_view(out@[k].1@).to_set()));
                assert forall|k: int| 0 <= k < j + 1 implies #[trigger] cur[k] == tgt[k] by {
                    if k < j {
                        assert(out@[k] == out0[k]);
                        assert(o0[k] == Seq::new(j as nat, |k: int| (before[k].0, f(before[k].0, before[k].1)))[k]);
                    }
                }
                assert(out@[j as int].0@ == before[j as int].0);
                assert(texts_view(out@[j as int].1@).to_set() == mset);
                assert forall|k: int| 0 <= k < j implies #[trigger] out@[k] == out@[k] by {}
                assert(Seq::new(out@.len(), |k: int| (out@[k].0@, texts_view(out@[k].1@).to_set()))
                    =~= Seq::new((j + 1) as nat, |k: int| (before[k].0, f(before[k].0, before[k].1))));
            }
            j = j + 1;
        }
        let ghost mapped = Seq::new(before.len(), |k: int| (before[k].0, f(before[k].0, before[k].1)));
        if !found {
            let mut members: Vec<String> = Vec::new();
            members.push(device_id.to_string());
            let ghost o0 = Seq::new(out@.len(), |k: int| (out@[k].0@, texts_view(out@[k].1@).to_set()));
            out.push((group, members));
            proof {
                let single = Set::<Seq<char>>::empty().insert(id);
                assert forall|x: Seq<char>| #[trigger] texts_view(out@[o0.len() as int].1@).to_set().contains(x) == single.contains(x) by {
                    let t = texts_view(out@[o0.len() as int].1@);
                    if x == id { assert(t[0] == x); }
                }
                assert(texts_view(out@[o0.len() as int].1@).to_set() =~= single);
                assert(Seq::new(out@.len(), |k: int| (out@[k].0@, texts_view(out@[k].1@).to_set())) =~= mapped.push((gv, single)));
            }
        }
        let ghost new_groups = Seq::new(out@.len(), |k: int| (out@[k].0@, texts_view(out@[k].1@).to_set()));
        self.groups = out;
        proof {
            assert forall|g: PeerGroupView| #[trigger] assoc_get(self@.groups, g)
                == (if g == gv {
                    Some(match assoc_get(before, g) {
                        Some(m) => m.remove(id).insert(id),
                        None => Set::empty().insert(id),
                    })
                } else {
                    match assoc_get(before, g) {
                        Some(m) => Some(m.remove(id)),
                        None => None,
                    }
                }) by {
                crate::assoc::lemma_assoc_map(before, f, g);
                if found {
                    assert(self@.groups =~= mapped);
                    if g == gv {
                        let k = choose|k: int| 0 <= k < before.len() && before[k].0 == gv;
                        crate::assoc::lemma_assoc_some(before, g);
                        assert(crate::assoc::assoc_has(before, g));
                    }
                } else {
                    assert forall|k: int| 0 <= k < before.len() implies before[k].0 != gv by {}
                    assert forall|k: int| 0 <= k < mapped.len() implies mapped[k].0 != gv by {}
                    lemma_assoc_absent(before, gv);
                    crate::assoc::lemma_assoc_push_any(mapped, (gv, Set::<Seq<char>>::empty().insert(id)), g);
                    if g == gv {
                        lemma_assoc_absent(mapped, gv);
                        assert(Set::<Seq<char>>::empty().insert(id) =~= Set::empty().insert(id));
                    }
                }
            }
        }
    }

    /// The peers placed in a group.
    pub fn get_peers_by_group(&self, group: &PeerGroup) -> (r: Vec<String>)
        ensures
            texts_view(r@).to_set() == (match assoc_get(self@.groups, group@) {
                Some(m) => m,
                None => Set::empty(),
            }),
    {
        let mut i: usize = 0;
        while i < self.groups.len()
            invariant
                i <= self.groups@.len(),
                forall|j: int| 0 <= j < i ==> self@.groups[j].0 != group@,
            decreases self.groups@.len() - i,
        {
            if group_eq(&self.groups[i].0, group) {
                proof { lemma_assoc_found(self@.groups, i as int, group@); }
                return copy_texts(&self.groups[i].1);
            }
            i = i + 1;
        }
        proof { lemma_assoc_absent(self@.groups, group@); }
        let r: Vec<String> = Vec::new();
        proof { assert(texts_view(r@).to_set() =~= Set::<Seq<char>>::empty()); }
        r
    }

    /// Connects to a device now; see [`PeerTable::connect_to_peer_at`].
    /// Dialing the addresses is the caller's part.
    pub fn connect_to_peer(&mut self, device_id: String, addresses: Vec<String>) -> (r: Result<(), NetworkError>)
        requires
            id_head_ok(device_id@),
        ensures
            ids_distinct(old(self)@) ==> ids_distinct(final(self)@),
            exists|now: i64| #[trigger] connect_outcome(old(self)@, device_id@, texts_view(addresses@), now, r, final(self)@),
            final(self)@.history == old(self)@.history,
            final(self)@.groups == old(self)@.groups,
            (assoc_get(old(self)@.peers, device_id@) matches Some(p) && p.connection_state == ConnectionState::Connected)
                ==> (r is Ok && final(self)@ == old(self)@),
            (assoc_get(old(self)@.peers, device_id@) matches Some(p) && p.connection_state == ConnectionState::Connecting)
                ==> (r matches Err(NetworkError::ConnectionInProgress) && final(self)@ == old(self)@),
            !(assoc_get(old(self)@.peers, device_id@) matches Some(p) && (p.connection_state == ConnectionState::Connected
                || p.connection_state == ConnectionState::Connecting)) ==> {
                &&& (r is Ok <==> !contains_text(device_id@, fail_marker()))
                &&& assoc_get(final(self)@.peers, device_id@) matches Some(p)
                    && p.connection_state == (if r is Ok { ConnectionState::Connected } else { ConnectionState::Failed })
                &&& forall|k: Seq<char>| k != device_id@ ==> #[trigger] assoc_get(final(self)@.peers, k) == assoc_get(old(self)@.peers, k)
            },
    {
        let now = crate::clock::utc_now_ms();
        self.connect_to_peer_at(device_id, addresses, now)
    }

    /// Marks a peer disconnected now; see [`PeerTable::disconnect_peer_at`].
    pub fn disconnect_peer(&mut self, device_id: &str) -> (r: Option<Disconnection>)
        ensures
            r is Some <==> assoc_has(old(self)@.peers, device_id@),
            r matches Some(d) ==> is_disconnected_event(d.event, device_id@) && d.forget_after_ms == FORGET_DISCONNECTED_AFTER_MS,
            ids_distinct(old(self)@) ==> ids_distinct(final(self)@),
            final(self)@.discovered == old(self)@.discovered,
            final(self)@.history == old(self)@.history,
            final(self)@.groups == old(self)@.groups,
            forall|k: Seq<char>| k != device_id@ ==> #[trigger] assoc_get(final(self)@.peers, k) == assoc_get(old(self)@.peers, k),
            assoc_get(old(self)@.peers, device_id@) is None ==> assoc_get(final(self)@.peers, device_id@) is None,
            assoc_get(old(self)@.peers, device_id@) is Some ==> (assoc_get(final(self)@.peers, device_id@) matches Some(p)
                && p.connection_state == ConnectionState::Disconnected && !p.is_online),
    {
        let now = crate::clock::utc_now_ms();
        self.disconnect_peer_at(device_id, now)
    }

    /// Records a discovered peer now; see
    /// [`PeerTable::add_discovered_peer_at`].
    pub fn add_discovered_peer(&mut self, device_id: String, addresses: Vec<String>, method: DiscoveryMethod)
        requires
            id_head_ok(device_id@),
        ensures
            ids_distinct(old(self)@) ==> ids_distinct(final(self)@),
            final(self)@.peers == old(self)@.peers,
            final(self)@.history == old(self)@.history,
            final(self)@.groups == old(self)@.groups,
            forall|k: Seq<char>| k != device_id@ ==> #[trigger] assoc_get(final(self)@.discovered, k) == assoc_get(old(self)@.discovered, k),
            assoc_get(final(self)@.discovered, device_id@) matches Some(d) && d.discovery_method == method
                && d.addresses == texts_view(addresses@)
                && d.service_name == peer_service_name(old(self)@.service_name, device_id@),
    {
        let now = crate::clock::utc_now_ms();
        self.add_discovered_peer_at(device_id, addresses, method, now);
    }

    /// The connected peers, in order.
    pub fn get_connected_peers(&self) -> (r: Vec<String>)
        ensures
            texts_view(r@) == peer_ids_where(self@.peers, |p: PeerInfoView| p.connection_state == ConnectionState::Connected),
    {
        let ghost f = |p: PeerInfoView| p.connection_state == ConnectionState::Connected;
        let mut r: Vec<String> = Vec::new();
        let mut i: usize = 0;
        while i < self.peers.len()
            invariant
                i <= self.peers@.len(),
                f == (|p: PeerInfoView| p.connection_state == ConnectionState::Connected),
                texts_view(r@) == peer_ids_where(self@.peers.take(i as int), f),
            decreases self.peers@.len() - i,
        {
            proof {
                assert(self@.peers.take(i + 1).drop_last() =~= self@.peers.take(i as int));
                assert(self@.peers.take(i + 1).last() == self@.peers[i as int]);
            }
            let ghost r0 = texts_view(r@);
            if self.peers[i].connection_state == ConnectionState::Connected {
                r.push(copy_string(&self.peers[i].device_id));
                proof { assert(texts_view(r@) =~= r0.push(self@.peers[i as int].0)); }
            }
            i = i + 1;
        }
        proof { assert(self@.peers.take(self@.peers.len() as int) =~= self@.peers); }
        r
    }

    /// Every group with the peers placed in it.
    pub fn get_peer_groups(&self) -> (r: Vec<(PeerGroup, Vec<String>)>)
        ensures
            Seq::new(r@.len(), |i: int| (r@[i].0@, texts_view(r@[i].1@).to_set())) == self@.groups,
    {
        let mut r: Vec<(PeerGroup, Vec<String>)> = Vec::new();
        let mut i: usize = 0;
        while i < self.groups.len()
            invariant
                i <= self.groups@.len(),
                r@.len() == i,
                Seq::new(r@.len(), |k: int| (r@[k].0@, texts_view(r@[k].1@).to_set())) == self@.groups.take(i as int),
            decreases self.groups@.len() - i,
        {
            let ghost r0 = r@;
            let ghost old_view = Seq::new(r@.len(), |k: int| (r@[k].0@, texts_view(r@[k].1@).to_set()));
            let g = copy_group(&self.groups[i].0);
            let m = copy_texts(&self.groups[i].1);
            proof {
                assert(g@ == self@.groups[i as int].0);
                assert(texts_view(m@).to_set() == self@.groups[i as int].1);
            }
            r.push((g, m));
            proof {
                assert forall|k: int| 0 <= k < i implies #[trigger] r@[k] == r0[k] by {}
                assert forall|k: int| 0 <= k < i implies old_view[k] == #[trigger] self@.groups.take(i as int)[k] by {}
                assert(Seq::new(r@.len(), |k: int| (r@[k].0@, texts_view(r@[k].1@).to_set())) =~= self@.groups.take(i + 1));
            }
            i = i + 1;
        }
        proof { assert(self@.groups.take(self@.groups.len() as int) =~= self@.groups); }
        r
    }

    /// Whether a peer is trusted at `now` (see [`peer_authorized`]).
    pub fn is_peer_authorized_at(&self, device_id: &str, now: i64) -> (r: Result<bool, NetworkError>)
        ensures
            r matches Ok(b) && b == peer_authorized(self@, device_id@, now),
    {
        let i = match self.find_peer(device_id) {
            Some(i) => i,
            None => { return Ok(false); }
        };
        let bytes = device_id.as_bytes();
        if bytes.len() == 0 || bytes.len() > 64 {
            return Ok(false);
        }
        let n = device_id.unicode_len();
        let mut k: usize = 0;
        while k < n
            invariant
                k <= n,
                n == device_id@.len(),
                forall|j: int| 0 <= j < k ==> unicode_alphanumeric(#[trigger] device_id@[j]) || device_id@[j] == '-' || device_id@[j] == '_',
            decreases n - k,
        {
            let c = device_id.get_char(k);
            if !(char_is_alphanumeric(c) || c == '-' || c == '_') {
                return Ok(false);
            }
            k = k + 1;
        }
        let lower = text_to_lowercase(device_id);
        let l = lower.as_str();
        if text_contains(l, "admin") || text_contains(l, "root") || text_contains(l, "system")
            || text_contains(l, "test") || text_contains(l, "null") || text_contains(l, "undefined") {
            return Ok(false);
        }
        let p = &self.peers[i];
        if p.device_cert.is_none() || !p.is_authorized {
            return Ok(false);
        }
        match p.connection_state {
            ConnectionState::Connected => {
                if (now as i128) - (p.last_seen as i128) >= 90_000_000i128 {
                    return Ok(false);
                }
                if p.health == PeerHealth::Unhealthy {
                    return Ok(false);
                }
                Ok(true)
            }
            _ => Ok(false),
        }
    }

    /// Whether a peer is trusted now; see [`PeerTable::is_peer_authorized_at`].
    pub fn is_peer_authorized(&self, device_id: &str) -> (r: Result<bool, NetworkError>)
        ensures
            exists|now: i64| crate::clock::EARLIEST_TIME_MS <= now <= crate::clock::LATEST_TIME_MS
                && r == Ok::<bool, NetworkError>(#[trigger] peer_authorized(self@, device_id@, now)),
            (match assoc_get(self@.peers, device_id@) {
                Some(p) => !p.has_device_cert || !p.is_authorized || p.connection_state != ConnectionState::Connected
                    || p.health == PeerHealth::Unhealthy || suspicious_id(device_id@),
                None => true,
            }) ==> r matches Ok(false),
    {
        let now = crate::clock::utc_now_ms();
        let r = self.is_peer_authorized_at(device_id, now);
        proof { assert(r == Ok::<bool, NetworkError>(peer_authorized(self@, device_id@, now))); }
        r
    }

    /// Records the outcome of a connection attempt at `now`. On success the
    /// peer is connected and online; on failure it has failed, with one
    /// more attempt, and the failure is given back. An unknown peer is
    /// left alone.
    pub fn finish_connection_at(&mut self, device_id: &str, outcome: Result<(), NetworkError>, now: i64) -> (r: Result<(), NetworkError>)
        requires
            assoc_get(old(self)@.peers, device_id@) matches Some(p) ==> (p.stats.successful_connections < u32::MAX
                && p.stats.failed_connections < u32::MAX && p.connection_attempts < u32::MAX),
        ensures
            ids_distinct(old(self)@) ==> ids_distinct(final(self)@),
            final(self)@.discovered == old(self)@.discovered,
            final(self)@.history == old(self)@.history,
            final(self)@.service_name == old(self)@.service_name,
            final(self)@.service_type == old(self)@.service_type,
            final(self)@.groups == old(self)@.groups,
            forall|k: Seq<char>| k != device_id@ ==> #[trigger] assoc_get(final(self)@.peers, k) == assoc_get(old(self)@.peers, k),
            match assoc_get(old(self)@.peers, device_id@) {
                None => final(self)@ == old(self)@ && r == outcome,
                Some(p) => if outcome is Ok {
                    r is Ok && assoc_get(final(self)@.peers, device_id@) == Some(connected_peer(p, now))
                } else {
                    r == outcome && assoc_get(final(self)@.peers, device_id@) == Some(failed_peer(p, now))
                },
            },
    {
        match self.find_peer(device_id) {
            None => outcome,
            Some(i) => {
                let mut p = copy_peer(&self.peers[i]);
                let mut stats = p.stats;
                let ok = outcome.is_ok();
                if ok {
                    p.connection_state = ConnectionState::Connected;
                    p.is_online = true;
                    p.last_seen = now;
                    p.connection_start_time = Some(now);
                    stats.successful_connections = stats.successful_connections + 1;
                    stats.last_successful_connection = Some(now);
                    stats.last_activity = now;
                } else {
                    p.connection_state = ConnectionState::Failed;
                    p.connection_attempts = p.connection_attempts + 1;
                    stats.failed_connections = stats.failed_connections + 1;
                    stats.last_failed_connection = Some(now);
                }
                p.stats = stats;
                self.set_peer(i, p);
                if ok { Ok(()) } else { outcome }
            }
        }
    }
}

/// Whether a list of texts holds a text.
fn contains_text_in(v: &Vec<String>, t: &str) -> (r: bool)
    ensures
        r == texts_view(v@).contains(t@),
{
    let mut i: usize = 0;
    while i < v.len()
        invariant
            i <= v@.len(),
            forall|j: int| 0 <= j < i ==> v@[j]@ != t@,
        decreases v@.len() - i,
    {
        if str_eq(v[i].as_str(), t) {
            assert(texts_view(v@)[i as int] == t@);
            return true;
        }
        i = i + 1;
    }
    proof {
        if texts_view(v@).contains(t@) {
            let k = choose|k: int| 0 <= k < texts_view(v@).len() && texts_view(v@)[k] == t@;
            assert(v@[k]@ == t@);
        }
    }
    false
}

/// Whether two groups are the same.
fn group_eq(a: &PeerGroup, b: &PeerGroup) -> (r: bool)
    ensures
        r == (a@ == b@),
{
    match (a, b) {
        (PeerGroup::Local, PeerGroup::Local) => true,
        (PeerGroup::Internet, PeerGroup::Internet) => true,
        (PeerGroup::Relay, PeerGroup::Relay) => true,
        (PeerGroup::Trusted, PeerGroup::Trusted) => true,
        (PeerGroup::Blocked, PeerGroup::Blocked) => true,
        (PeerGroup::Custom(x), PeerGroup::Custom(y)) => str_eq(x.as_str(), y.as_str()),
        _ => false,
    }
}

/// A copy of a peer's record.
fn copy_peer(p: &PeerInfo) -> (r: PeerInfo)
    ensures
        r@ == p@,
        r.device_id@ == p.device_id@,
{
    let r = PeerInfo {
        device_id: copy_string(&p.device_id),
        device_name: copy_string(&p.device_name),
        is_online: p.is_online,
        is_authorized: p.is_authorized,
        device_cert: match &p.device_cert {
            Some(c) => Some(copy_cert(c)),
            None => None,
        },
        connection_state: p.connection_state,
        last_seen: p.last_seen,
        connection_attempts: p.connection_attempts,
        last_attempt: p.last_attempt,
        discovery_info: copy_discovery_opt(&p.discovery_info),
        health: p.health,
        stats: p.stats,
        config: copy_config(&p.config),
        connection_start_time: p.connection_start_time,
        last_health_check: p.last_health_check,
        tags: copy_texts(&p.tags),
    };
    proof {
        assert(r@.discovery_info == p@.discovery_info);
        assert(r@.tags =~= p@.tags);
    }
    r
}

/// A copy of a peer's settings.
fn copy_config(c: &PeerConfig) -> (r: PeerConfig)
    ensures
        r@ == c@,
{
    PeerConfig {
        max_connection_attempts: c.max_connection_attempts,
        connection_timeout_secs: c.connection_timeout_secs,
        health_check_interval_secs: c.health_check_interval_secs,
        max_idle_time_secs: c.max_idle_time_secs,
        group: copy_group(&c.group),
        auto_reconnect: c.auto_reconnect,
        priority: c.priority,
    }
}

/// A copy of a group.
fn copy_group(g: &PeerGroup) -> (r: PeerGroup)
    ensures
        r@ == g@,
{
    match g {
        PeerGroup::Local => PeerGroup::Local,
        PeerGroup::Internet => PeerGroup::Internet,
        PeerGroup::Relay => PeerGroup::Relay,
        PeerGroup::Trusted => PeerGroup::Trusted,
        PeerGroup::Blocked => PeerGroup::Blocked,
        PeerGroup::Custom(s) => PeerGroup::Custom(copy_string(s)),
    }
}

/// A copy of discovery information.
fn copy_discovery(d: &DiscoveryInfo) -> (r: DiscoveryInfo)
    ensures
        r@ == d@,
{
    DiscoveryInfo {
        device_id: copy_string(&d.device_id),
        addresses: copy_texts(&d.addresses),
        service_type: copy_string(&d.service_type),
        service_name: copy_string(&d.service_name),
        discovered_at: d.discovered_at,
        last_seen: d.last_seen,
        discovery_method: d.discovery_method,
    }
}

fn copy_discovery_opt(d: &Option<DiscoveryInfo>) -> (r: Option<DiscoveryInfo>)
    ensures
        match (r, *d) {
            (Some(a), Some(b)) => a@ == b@,
            (None, None) => true,
            _ => false,
        },
{
    match d {
        Some(x) => Some(copy_discovery(x)),
        None => None,
    }
}

} // verus!
