//! Finding peers: the switches for discovery and peer management, and the
//! simulated local-network scan and mDNS discovery that stand in for real
//! ones.

use vstd::prelude::*;
use crate::assoc::assoc_get;
use crate::codec::utf8_to_string;
use crate::peers::{texts_view, DiscoveryInfo, DiscoveryInfoView, PeerTable, PeerTableView};
use crate::types::DiscoveryMethod;

verus! {

/// Whether this node looks for peers and looks after them, and how often
/// (in milliseconds).
#[derive(Clone, Copy, Debug, PartialEq, Eq, Structural)]
pub struct NetworkControls {
    pub discovery_enabled: bool,
    pub discovery_interval_ms: u64,
    pub peer_management_enabled: bool,
    pub health_check_interval_ms: u64,
}

impl NetworkControls {
    /// Both switched on; discovery every ten seconds, health checks every
    /// minute.
    pub fn new() -> (r: Self)
        ensures
            r == (NetworkControls {
                discovery_enabled: true,
                discovery_interval_ms: 10_000,
                peer_management_enabled: true,
                health_check_interval_ms: 60_000,
            }),
    {
        NetworkControls { discovery_enabled: true, discovery_interval_ms: 10_000, peer_management_enabled: true, health_check_interval_ms: 60_000 }
    }

    /// Switches discovery on.
    pub fn start_discovery(&mut self)
        ensures
            *final(self) == (NetworkControls { discovery_enabled: true, ..*old(self) }),
    {
        self.discovery_enabled = true;
    }

    /// Switches discovery off.
    pub fn stop_discovery(&mut self)
        ensures
            *final(self) == (NetworkControls { discovery_enabled: false, ..*old(self) }),
    {
        self.discovery_enabled = false;
    }

    /// Whether discovery is on.
    pub fn is_discovery_enabled(&self) -> (r: bool)
        ensures
            r == self.discovery_enabled,
    {
        self.discovery_enabled
    }

    /// Sets how often discovery runs.
    pub fn set_discovery_interval(&mut self, interval_ms: u64)
        ensures
            *final(self) == (NetworkControls { discovery_interval_ms: interval_ms, ..*old(self) }),
    {
        self.discovery_interval_ms = interval_ms;
    }

    /// Switches peer management on.
    pub fn start_peer_management(&mut self)
        ensures
            *final(self) == (NetworkControls { peer_management_enabled: true, ..*old(self) }),
    {
        self.peer_management_enabled = true;
    }

    /// Switches peer management off.
    pub fn stop_peer_management(&mut self)
        ensures
            *final(self) == (NetworkControls { peer_management_enabled: false, ..*old(self) }),
    {
        self.peer_management_enabled = false;
    }

    /// Whether peer management is on.
    pub fn is_peer_management_enabled(&self) -> (r: bool)
        ensures
            r == self.peer_management_enabled,
    {
        self.peer_management_enabled
    }

    /// Sets how often peers' health is checked.
    pub fn set_health_check_interval(&mut self, interval_ms: u64)
        ensures
            *final(self) == (NetworkControls { health_check_interval_ms: interval_ms, ..*old(self) }),
    {
        self.health_check_interval_ms = interval_ms;
    }
}

/// The ASCII code of a decimal digit.
pub open spec fn dec_digit(d: int) -> u8 {
    (48 + d) as u8
}

/// The decimal digits of a number, as ASCII codes.
pub open spec fn dec_bytes(n: nat) -> Seq<u8>
    decreases n,
{
    if n < 10 {
        seq![dec_digit(n as int)]
    } else {
        dec_bytes(n / 10).push(dec_digit((n % 10) as int))
    }
}

/// The ASCII code of a lower-case hex digit.
pub open spec fn hex_digit(d: int) -> u8 {
    if d < 10 { (48 + d) as u8 } else { (87 + d) as u8 }
}

/// Four lower-case hex digits of a 16-bit number, as ASCII codes.
pub open spec fn hex4_bytes(n: u16) -> Seq<u8> {
    seq![hex_digit(n as int / 4096), hex_digit((n as int / 256) % 16), hex_digit((n as int / 16) % 16), hex_digit(n as int % 16)]
}

/// The text of ASCII codes.
pub open spec fn ascii_chars(b: Seq<u8>) -> Seq<char> {
    Seq::new(b.len(), |i: int| b[i] as char)
}

/// The text of ASCII codes below 128.
fn ascii_text(b: Vec<u8>) -> (r: String)
    requires
        forall|i: int| 0 <= i < b@.len() ==> #[trigger] b@[i] < 128,
    ensures
        r@ == ascii_chars(b@),
{
    let ghost chars = ascii_chars(b@);
    proof {
        assert(vstd::utf8::is_ascii_chars(chars));
        vstd::utf8::is_ascii_chars_encode_utf8(chars);
        assert(vstd::utf8::encode_utf8(chars) =~= b@);
        vstd::utf8::encode_utf8_valid_utf8(chars);
        vstd::utf8::encode_utf8_decode_utf8(chars);
    }
    match utf8_to_string(b) {
        Some(s) => s,
        None => String::new(),
    }
}

/// The decimal digits of a number.
fn decimal_text(n: u64) -> (r: String)
    ensures
        r@ == ascii_chars(dec_bytes(n as nat)),
{
    let mut rev: Vec<u8> = Vec::new();
    let mut m: u64 = n;
    loop
        invariant_except_break
            m <= n,
            dec_bytes(n as nat) == dec_bytes(m as nat) + rev@.reverse(),
        invariant
            forall|i: int| 0 <= i < rev@.len() ==> 48 <= #[trigger] rev@[i] < 58,
        ensures
            dec_bytes(n as nat) == rev@.reverse(),
        decreases m,
    {
        let d = (m % 10) as u8;
        let ghost before = rev@;
        rev.push(48 + d);
        proof {
            assert(rev@.reverse() =~= seq![dec_digit((m % 10) as int)] + before.reverse());
        }
        if m < 10 {
            proof {
                assert(dec_bytes(m as nat) =~= seq![dec_digit(m as int)]);
            }
            break;
        }
        proof {
            assert(dec_bytes(m as nat) == dec_bytes((m / 10) as nat).push(dec_digit((m % 10) as int)));
            assert(dec_bytes((m / 10) as nat).push(dec_digit((m % 10) as int)) + before.reverse()
                =~= dec_bytes((m / 10) as nat) + rev@.reverse());
        }
        m = m / 10;
    }
    let mut out: Vec<u8> = Vec::new();
    let mut j: usize = rev.len();
    while j > 0
        invariant
            j <= rev@.len(),
            forall|i: int| 0 <= i < rev@.len() ==> 48 <= #[trigger] rev@[i] < 58,
            out@ == rev@.subrange(j as int, rev@.len() as int).reverse(),
        decreases j,
    {
        j = j - 1;
        out.push(rev[j]);
        proof { assert(out@ =~= rev@.subrange(j as int, rev@.len() as int).reverse()); }
    }
    proof {
        assert(rev@.subrange(0, rev@.len() as int) =~= rev@);
        assert(out@ =~= dec_bytes(n as nat));
    }
    ascii_text(out)
}

/// Four lower-case hex digits of a 16-bit number.
fn hex4_text(n: u16) -> (r: String)
    ensures
        r@ == ascii_chars(hex4_bytes(n)),
{
    let digits: [u16; 4] = [n / 4096, (n / 256) % 16, (n / 16) % 16, n % 16];
    let mut out: Vec<u8> = Vec::new();
    let mut i: usize = 0;
    while i < 4
        invariant
            i <= 4,
            digits@ == seq![n / 4096, (n / 256) % 16, (n / 16) % 16, n % 16],
            out@.len() == i,
            forall|k: int| 0 <= k < i ==> #[trigger] out@[k] == hex_digit(digits@[k] as int),
        decreases 4 - i,
    {
        let d = digits[i];
        let c: u8 = if d < 10 { 48 + d as u8 } else { 87 + d as u8 };
        out.push(c);
        i = i + 1;
    }
    proof { assert(out@ =~= hex4_bytes(n)); }
    ascii_text(out)
}

/// A local network that a scan looks at.
#[derive(Clone, Copy, Debug, PartialEq, Eq, Structural)]
pub enum ScanRange {
    /// 192.168.1.0/24
    Home1,
    /// 192.168.0.0/24
    Home0,
    /// 10.0.0.0/24
    Private10,
    /// 172.16.0.0/24
    Private172,
}

/// The address prefix of a scanned network.
pub open spec fn range_prefix(r: ScanRange) -> Seq<char> {
    match r {
        ScanRange::Home1 => "192.168.1."@,
        ScanRange::Home0 => "192.168.0."@,
        ScanRange::Private10 => "10.0.0."@,
        ScanRange::Private172 => "172.16.0."@,
    }
}

/// A peer a scan found: its network, the number in its id, and its host
/// number there (1 to 254).
#[derive(Clone, Copy, Debug, PartialEq, Eq, Structural)]
pub struct ScanFind {
    pub range: ScanRange,
    pub id: u16,
    pub host: u8,
}

/// The record of a peer a scan found at `now`.
pub open spec fn scanned_info(service_type: Seq<char>, f: ScanFind, now: i64) -> DiscoveryInfoView {
    DiscoveryInfoView {
        device_id: "scanned-"@ + ascii_chars(hex4_bytes(f.id)),
        addresses: seq!["/ip4/"@ + range_prefix(f.range) + ascii_chars(dec_bytes(f.host as nat)) + "/tcp/8080"@],
        service_type,
        service_name: "SAVED-scanned-"@,
        discovered_at: now,
        last_seen: now,
        discovery_method: DiscoveryMethod::Manual,
    }
}

/// The last of some records that has an id.
pub open spec fn last_with_id(infos: Seq<DiscoveryInfoView>, k: Seq<char>) -> Option<DiscoveryInfoView>
    decreases infos.len(),
{
    if infos.len() == 0 {
        None
    } else if infos.last().device_id == k {
        Some(infos.last())
    } else {
        last_with_id(infos.drop_last(), k)
    }
}

/// The records of the peers a scan found at `now`.
pub open spec fn scanned_infos(service_type: Seq<char>, finds: Seq<ScanFind>, now: i64) -> Seq<DiscoveryInfoView> {
    Seq::new(finds.len(), |i: int| scanned_info(service_type, finds[i], now))
}

/// Whether a scan's finds have host numbers from 1 to 254.
pub open spec fn finds_ok(finds: Seq<ScanFind>) -> bool {
    forall|i: int| 0 <= i < finds.len() ==> 1 <= #[trigger] finds[i].host <= 254
}

/// Whether `after` is `before` once a scan has found `count` peers: for
/// some finds with valid host numbers, taken at some time, each peer found
/// is recorded in place of any earlier record of it, and nothing else of
/// the table changes.
pub open spec fn scan_applied(before: PeerTableView, after: PeerTableView, count: nat) -> bool {
    &&& exists|finds: Seq<ScanFind>, now: i64| #![trigger scanned_infos(before.service_type, finds, now)]
        finds.len() == count && finds_ok(finds)
        && (forall|k: Seq<char>| #[trigger] assoc_get(after.discovered, k)
            == match last_with_id(scanned_infos(before.service_type, finds, now), k) {
                Some(d) => Some(d),
                None => assoc_get(before.discovered, k),
            })
    &&& after.peers == before.peers
    &&& after.history == before.history
    &&& after.service_name == before.service_name
    &&& after.service_type == before.service_type
    &&& after.groups == before.groups
}

/// The record of a peer mDNS found, for a random value below 30, at `now`.
pub open spec fn mdns_info(service_type: Seq<char>, v: u64, now: i64) -> DiscoveryInfoView {
    DiscoveryInfoView {
        device_id: "discovered-"@ + ascii_chars(hex4_bytes(v as u16)),
        addresses: seq![
            "/ip4/192.168.1."@ + ascii_chars(dec_bytes(((v % 254) + 1) as nat)),
            "/ip4/10.0.0."@ + ascii_chars(dec_bytes((((v * 2) % 254) + 1) as nat)),
        ],
        service_type,
        service_name: "SAVED-discover"@,
        discovered_at: now,
        last_seen: now,
        discovery_method: DiscoveryMethod::Mdns,
    }
}

/// A random number from `lo` to below `hi` (`rand::thread_rng().gen_range`,
/// which panics on an empty range). Nothing more is stated of it: it is
/// chance.
#[verifier::external_body]
fn random_in(lo: u64, hi: u64) -> (r: u64)
    requires
        lo < hi,
    ensures
        lo <= r < hi,
{
    rand::Rng::gen_range(&mut rand::thread_rng(), lo..hi)
}

/// A random 16-bit number (`rand::thread_rng().gen`). Nothing is stated of
/// it: it is chance.
#[verifier::external_body]
fn random_u16() -> u16 {
    rand::Rng::gen(&mut rand::thread_rng())
}

/// The record of a scanned peer.
fn scanned_record(service_type: &String, f: ScanFind, now: i64) -> (r: DiscoveryInfo)
    requires
        1 <= f.host <= 254,
    ensures
        r@ == scanned_info(service_type@, f, now),
{
    let device_id = String::from_str("scanned-").concat(hex4_text(f.id).as_str());
    let prefix: &str = match f.range {
        ScanRange::Home1 => "192.168.1.",
        ScanRange::Home0 => "192.168.0.",
        ScanRange::Private10 => "10.0.0.",
        ScanRange::Private172 => "172.16.0.",
    };
    let address = String::from_str("/ip4/").concat(prefix).concat(decimal_text(f.host as u64).as_str()).concat("/tcp/8080");
    let addresses = vec![address];
    let r = DiscoveryInfo {
        device_id,
        addresses,
        service_type: crate::events::copy_string(service_type),
        service_name: String::from_str("SAVED-scanned-"),
        discovered_at: now,
        last_seen: now,
        discovery_method: DiscoveryMethod::Manual,
    };
    proof { assert(texts_view(r.addresses@) =~= scanned_info(service_type@, f, now).addresses); }
    r
}

/// The record of a peer mDNS found, from its texts.
fn mdns_record(device_id: &String, a1: &String, a2: &String, service_type: &String, random_value: u64, now: i64) -> (d: DiscoveryInfo)
    requires
        random_value < 30,
        device_id@ == "discovered-"@ + ascii_chars(hex4_bytes(random_value as u16)),
        a1@ == "/ip4/192.168.1."@ + ascii_chars(dec_bytes(((random_value % 254) + 1) as nat)),
        a2@ == "/ip4/10.0.0."@ + ascii_chars(dec_bytes((((random_value * 2) % 254) + 1) as nat)),
    ensures
        d@ == mdns_info(service_type@, random_value, now),
{
    let d = DiscoveryInfo {
        device_id: crate::events::copy_string(device_id),
        addresses: vec![crate::events::copy_string(a1), crate::events::copy_string(a2)],
        service_type: crate::events::copy_string(service_type),
        service_name: String::from_str("SAVED-discover"),
        discovered_at: now,
        last_seen: now,
        discovery_method: DiscoveryMethod::Mdns,
    };
    proof { assert(texts_view(d.addresses@) =~= mdns_info(service_type@, random_value, now).addresses); }
    d
}

impl PeerTable {
    /// Records the peers a scan found at `now`, in order, each in place of
    /// any record of it; gives their records.
    pub fn scan_local_network_with(&mut self, finds: &Vec<ScanFind>, now: i64) -> (r: Vec<DiscoveryInfo>)
        requires
            finds_ok(finds@),
        ensures
            crate::peers::ids_distinct(old(self)@) ==> crate::peers::ids_distinct(final(self)@),
            Seq::new(r@.len(), |i: int| r@[i]@) == scanned_infos(old(self)@.service_type, finds@, now),
            final(self)@.peers == old(self)@.peers,
            final(self)@.history == old(self)@.history,
            final(self)@.service_name == old(self)@.service_name,
            final(self)@.service_type == old(self)@.service_type,
            final(self)@.groups == old(self)@.groups,
            forall|k: Seq<char>| #[trigger] assoc_get(final(self)@.discovered, k)
                == match last_with_id(scanned_infos(old(self)@.service_type, finds@, now), k) {
                    Some(d) => Some(d),
                    None => assoc_get(old(self)@.discovered, k),
                },
    {
        let ghost start = self@;
        let ghost all = scanned_infos(start.service_type, finds@, now);
        let service_type = self.service_type_text();
        let mut out: Vec<DiscoveryInfo> = Vec::new();
        let mut i: usize = 0;
        while i < finds.len()
            invariant
                i <= finds@.len(),
                finds_ok(finds@),
                service_type@ == start.service_type,
                all == scanned_infos(start.service_type, finds@, now),
                Seq::new(out@.len(), |k: int| out@[k]@) == all.take(i as int),
                self@.peers == start.peers,
                self@.history == start.history,
                self@.service_name == start.service_name,
                self@.service_type == start.service_type,
                self@.groups == start.groups,
                crate::peers::ids_distinct(start) ==> crate::peers::ids_distinct(self@),
                forall|k: Seq<char>| #[trigger] assoc_get(self@.discovered, k)
                    == match last_with_id(all.take(i as int), k) {
                        Some(d) => Some(d),
                        None => assoc_get(start.discovered, k),
                    },
            decreases finds@.len() - i,
        {
            let f = finds[i];
            proof { assert(1 <= finds@[i as int].host <= 254); }
            let rec = scanned_record(&service_type, f, now);
            let kept = scanned_record(&service_type, f, now);
            let ghost before_out = Seq::new(out@.len(), |k: int| out@[k]@);
            let ghost before = self@;
            self.put_discovered(rec);
            out.push(kept);
            proof {
                assert(all.take(i + 1).drop_last() =~= all.take(i as int));
                assert(all.take(i + 1).last() == all[i as int]);
                assert(Seq::new(out@.len(), |k: int| out@[k]@) =~= before_out.push(all[i as int]));
                assert(all.take(i + 1) =~= all.take(i as int).push(all[i as int]));
            }
            i = i + 1;
        }
        proof { assert(all.take(finds@.len() as int) =~= all); }
        out
    }

    /// Scans the local networks now: up to two peers each on four networks,
    /// at random; records and gives them.
    pub fn scan_local_network(&mut self) -> (r: Vec<DiscoveryInfo>)
        ensures
            crate::peers::ids_distinct(old(self)@) ==> crate::peers::ids_distinct(final(self)@),
            r@.len() <= 8,
            scan_applied(old(self)@, final(self)@, r@.len()),
            exists|finds: Seq<ScanFind>, now: i64| #![trigger scanned_infos(old(self)@.service_type, finds, now)]
                finds.len() == r@.len() && finds_ok(finds)
                && Seq::new(r@.len(), |i: int| r@[i]@) == scanned_infos(old(self)@.service_type, finds, now)
                && (forall|k: Seq<char>| #[trigger] assoc_get(final(self)@.discovered, k)
                    == match last_with_id(scanned_infos(old(self)@.service_type, finds, now), k) {
                        Some(d) => Some(d),
                        None => assoc_get(old(self)@.discovered, k),
                    }),
            final(self)@.peers == old(self)@.peers,
            final(self)@.history == old(self)@.history,
            final(self)@.service_name == old(self)@.service_name,
            final(self)@.service_type == old(self)@.service_type,
            final(self)@.groups == old(self)@.groups,
    {
        let ranges: [ScanRange; 4] = [ScanRange::Home1, ScanRange::Home0, ScanRange::Private10, ScanRange::Private172];
        let mut finds: Vec<ScanFind> = Vec::new();
        let mut k: usize = 0;
        while k < 4
            invariant
                k <= 4,
                finds@.len() <= 2 * k,
                finds_ok(finds@),
            decreases 4 - k,
        {
            let count = random_in(0, 3);
            let mut c: u64 = 0;
            while c < count
                invariant
                    c <= count,
                    count < 3,
                    k < 4,
                    finds@.len() <= 2 * k + c,
                    finds_ok(finds@),
                decreases count - c,
            {
                let id = random_u16();
                let host = random_in(1, 255) as u8;
                finds.push(ScanFind { range: ranges[k], id, host });
                proof { assert(finds_ok(finds@)); }
                c = c + 1;
            }
            k = k + 1;
        }
        let now = crate::clock::utc_now_ms();
        let r = self.scan_local_network_with(&finds, now);
        proof {
            assert(Seq::new(r@.len(), |i: int| r@[i]@).len() == finds@.len());
        }
        r
    }

    /// One round of simulated mDNS discovery at `now`, for a random value
    /// below 100: below 30, a peer named by the value is found and recorded
    /// in place of any record of it, and given back.
    pub fn simulate_mdns_discovery_at(&mut self, random_value: u64, now: i64) -> (r: Option<DiscoveryInfo>)
        requires
            random_value < 100,
        ensures
            crate::peers::ids_distinct(old(self)@) ==> crate::peers::ids_distinct(final(self)@),
            final(self)@.peers == old(self)@.peers,
            final(self)@.history == old(self)@.history,
            final(self)@.service_name == old(self)@.service_name,
            final(self)@.service_type == old(self)@.service_type,
            final(self)@.groups == old(self)@.groups,
            random_value >= 30 ==> r is None && final(self)@.discovered == old(self)@.discovered,
            random_value < 30 ==> {
                let d = mdns_info(old(self)@.service_type, random_value, now);
                &&& r matches Some(x) && x@ == d
                &&& forall|k: Seq<char>| #[trigger] assoc_get(final(self)@.discovered, k)
                    == (if k == d.device_id { Some(d) } else { assoc_get(old(self)@.discovered, k) })
            },
    {
        if random_value >= 30 {
            return None;
        }
        let service_type = self.service_type_text();
        let device_id = String::from_str("discovered-").concat(hex4_text(random_value as u16).as_str());
        let a1 = String::from_str("/ip4/192.168.1.").concat(decimal_text((random_value % 254) + 1).as_str());
        let a2 = String::from_str("/ip4/10.0.0.").concat(decimal_text(((random_value * 2) % 254) + 1).as_str());
        let rec = mdns_record(&device_id, &a1, &a2, &service_type, random_value, now);
        let kept = mdns_record(&device_id, &a1, &a2, &service_type, random_value, now);
        self.put_discovered(rec);
        Some(kept)
    }

    /// One round of simulated mDNS discovery now, with a random value taken
    /// from the clock's nanoseconds; see
    /// [`PeerTable::simulate_mdns_discovery_at`].
    pub fn simulate_mdns_discovery(&mut self) -> (r: Option<DiscoveryInfo>)
        ensures
            crate::peers::ids_distinct(old(self)@) ==> crate::peers::ids_distinct(final(self)@),
            final(self)@.peers == old(self)@.peers,
            final(self)@.history == old(self)@.history,
            final(self)@.service_name == old(self)@.service_name,
            final(self)@.service_type == old(self)@.service_type,
            final(self)@.groups == old(self)@.groups,
            r is None ==> final(self)@.discovered == old(self)@.discovered,
            r matches Some(x) ==> exists|v: u64, now: i64| v < 30 && #[trigger] mdns_info(old(self)@.service_type, v, now) == x@
                && (forall|k: Seq<char>| #[trigger] assoc_get(final(self)@.discovered, k)
                    == (if k == x@.device_id { Some(x@) } else { assoc_get(old(self)@.discovered, k) })),
    {
        let value = (crate::clock::now_nanos() % 100) as u64;
        let now = crate::clock::utc_now_ms();
        self.simulate_mdns_discovery_at(value, now)
    }
}

} // verus!
