//! The control protocol of the daemon: its requests and responses, and the
//! parsing of message ids written as lists of byte values.

use vstd::prelude::*;
use vstd::string::StrSliceExecFns;
use crate::ids::MessageId;

verus! {

/// A request to the daemon.
#[derive(Debug)]
pub enum DaemonRequest {
    Status,
    DeviceList,
    DeviceInfo { device_id: String },
    DeviceLink,
    DeviceAccept { qr_payload: String },
    DeviceRevoke { device_id: String },
    PeerList,
    PeerConnect { device_id: String, addresses: Vec<String> },
    PeerDisconnect { device_id: String },
    PeerScan,
    MessageList,
    MessageSend { content: String, attachments: Vec<String> },
    MessageEdit { message_id: String, new_content: String },
    MessageDelete { message_id: String },
    MessagePurge { message_id: String },
    AttachmentList,
    AttachmentDownload { attachment_id: i64, output_path: String },
    AttachmentDelete { attachment_id: i64 },
    AttachmentPurge { attachment_id: i64 },
    NetworkStatus,
    NetworkAddresses,
    NetworkStart,
    NetworkStop,
    NetworkScan,
    AccountExport { output_path: String },
    AccountImport { input_path: String },
}

/// A device, as the daemon reports it.
#[derive(Debug)]
pub struct DeviceInfo {
    pub device_id: String,
    pub device_name: String,
    pub is_authorized: bool,
    pub last_seen: String,
    pub is_online: bool,
}

/// A connected peer, as the daemon reports it.
#[derive(Debug)]
pub struct PeerInfo {
    pub device_id: String,
    pub device_name: String,
    pub connection_state: Option<String>,
    pub health: Option<String>,
    pub last_seen: String,
}

/// A discovered peer, as the daemon reports it.
#[derive(Debug)]
pub struct DiscoveredPeerInfo {
    pub device_id: String,
    pub service_type: String,
    pub addresses: Vec<String>,
}

/// A message, as the daemon reports it.
#[derive(Debug)]
pub struct MessageInfo {
    pub id: String,
    pub content: String,
    pub created_at: String,
    pub edited_at: Option<String>,
    pub is_deleted: bool,
}

/// An attachment, as the daemon reports it.
#[derive(Debug)]
pub struct AttachmentInfo {
    pub id: i64,
    pub message_id: String,
    pub filename: String,
    pub size: u64,
    pub mime_type: Option<String>,
    pub status: String,
    pub created_at: String,
    pub last_accessed: Option<String>,
}

/// A response of the daemon.
#[derive(Debug)]
pub enum DaemonResponse {
    Status {
        device_id: String,
        device_name: String,
        authorized: bool,
        last_seen: String,
        connected_peers: usize,
        discovered_peers: usize,
        total_messages: usize,
        total_devices: usize,
    },
    DeviceList(Vec<DeviceInfo>),
    DeviceInfo(Option<DeviceInfo>),
    DeviceLink { qr_payload: String },
    DeviceAccepted { device_id: String, device_name: String },
    PeerList { connected: Vec<PeerInfo>, discovered: Vec<DiscoveredPeerInfo> },
    MessageList(Vec<MessageInfo>),
    MessageSent { message_id: String },
    MessageEdited { message_id: String },
    AttachmentList(Vec<AttachmentInfo>),
    AttachmentDownloaded { attachment_id: i64, output_path: String },
    NetworkStatus { connected_peers: usize, discovered_peers: usize, active: bool },
    NetworkAddresses(Vec<String>),
    NetworkScanned { discovered_count: usize },
    AccountExported { output_path: String },
    AccountImported { messages_imported: usize },
    Success,
    Error(String),
}

/// Why a message id could not be parsed.
#[derive(Debug, PartialEq, Eq)]
pub enum ParseIdError {
    /// The list does not have exactly 32 entries.
    WrongLength,
    /// The entry at this position (as written) is not a byte value.
    InvalidByte { position: usize, part: String },
}

/// The text that an error reads as.
pub open spec fn parse_id_error_text(e: ParseIdError) -> Seq<char> {
    match e {
        ParseIdError::WrongLength => "Message ID must have exactly 32 bytes"@,
        ParseIdError::InvalidByte { position, part } =>
            "Invalid byte at position "@ + crate::text::decimal_text(position as nat) + ": "@ + part@,
    }
}

impl ParseIdError {
    /// The text of the error.
    pub fn message(&self) -> (r: String)
        ensures
            r@ == parse_id_error_text(*self),
    {
        match self {
            ParseIdError::WrongLength => String::from_str("Message ID must have exactly 32 bytes"),
            ParseIdError::InvalidByte { position, part } => String::from_str("Invalid byte at position ")
                .concat(crate::text::decimal_string(*position as u128).as_str()).concat(": ").concat(part.as_str()),
        }
    }
}

/// The characters trimmed from both ends of a written id.
pub open spec fn is_id_punctuation(c: char) -> bool {
    c == '[' || c == ']' || c == ' ' || c == ','
}

/// Whether a character is white space (`char::is_whitespace`: the Unicode
/// `White_Space` property).
pub open spec fn is_white_space(c: char) -> bool {
    c == ' ' || ('\u{9}' <= c <= '\u{d}') || c == '\u{85}' || c == '\u{a0}' || c == '\u{1680}'
        || ('\u{2000}' <= c <= '\u{200a}') || c == '\u{2028}' || c == '\u{2029}' || c == '\u{202f}'
        || c == '\u{205f}' || c == '\u{3000}'
}

/// Removes the leading characters that satisfy `p`.
pub open spec fn strip_front(s: Seq<char>, p: spec_fn(char) -> bool) -> Seq<char>
    decreases s.len(),
{
    if s.len() > 0 && p(s[0]) { strip_front(s.drop_first(), p) } else { s }
}

/// Removes the trailing characters that satisfy `p`.
pub open spec fn strip_back(s: Seq<char>, p: spec_fn(char) -> bool) -> Seq<char>
    decreases s.len(),
{
    if s.len() > 0 && p(s.last()) { strip_back(s.drop_last(), p) } else { s }
}

/// Removes the leading and trailing characters that satisfy `p`.
pub open spec fn trim_by(s: Seq<char>, p: spec_fn(char) -> bool) -> Seq<char> {
    strip_back(strip_front(s, p), p)
}

/// The pieces of a text between commas (one more than there are commas).
pub open spec fn split_commas(s: Seq<char>) -> Seq<Seq<char>>
    decreases s.len(),
{
    if s.len() == 0 {
        seq![Seq::empty()]
    } else {
        let r = split_commas(s.drop_last());
        if s.last() == ',' {
            r.push(Seq::empty())
        } else {
            r.update(r.len() - 1, r.last().push(s.last()))
        }
    }
}

/// The value of a string of decimal digits.
pub open spec fn decimal_value(s: Seq<char>) -> int
    decreases s.len(),
{
    if s.len() == 0 { 0 } else { decimal_value(s.drop_last()) * 10 + (s.last() as int - 48) }
}

/// Whether a character is a decimal digit.
pub open spec fn is_decimal_digit(c: char) -> bool {
    '0' <= c <= '9'
}

/// The byte that a string of decimal digits denotes, if it is not empty
/// and its value is below 256.
pub open spec fn digits_u8(d: Seq<char>) -> Option<u8> {
    if d.len() > 0 && (forall|i: int| 0 <= i < d.len() ==> is_decimal_digit(#[trigger] d[i])) && decimal_value(d) < 256 {
        Some(decimal_value(d) as u8)
    } else {
        None
    }
}

/// The byte that a text denotes (`u8::from_str`): an optional `+`, then
/// at least one decimal digit, with a value below 256.
pub open spec fn parse_u8_spec(s: Seq<char>) -> Option<u8> {
    digits_u8(if s.len() > 0 && s[0] == '+' { s.drop_first() } else { s })
}

/// The entries of a written id: the text without the surrounding
/// punctuation, cut at commas.
pub open spec fn id_parts(s: Seq<char>) -> Seq<Seq<char>> {
    split_commas(trim_by(s, |c: char| is_id_punctuation(c)))
}

/// The position of the first entry that is not a byte value.
pub open spec fn first_bad_part(parts: Seq<Seq<char>>, from: int) -> Option<int>
    decreases parts.len() - from,
{
    if from >= parts.len() || from < 0 {
        None
    } else if parse_u8_spec(trim_by(parts[from], |c: char| is_white_space(c))) is None {
        Some(from)
    } else {
        first_bad_part(parts, from + 1)
    }
}

/// The characters of a string.
fn chars_of(s: &str) -> (r: Vec<char>)
    ensures
        r@ == s@,
{
    let n = s.unicode_len();
    let mut r: Vec<char> = Vec::new();
    let mut i: usize = 0;
    while i < n
        invariant
            i <= n,
            n == s@.len(),
            r@ == s@.take(i as int),
        decreases n - i,
    {
        let c = s.get_char(i);
        r.push(c);
        i = i + 1;
        proof { assert(r@ =~= s@.take(i as int)); }
    }
    proof { assert(s@.take(n as int) =~= s@); }
    r
}

/// The bounds of a sub-list once the characters that satisfy `p` are
/// stripped from its ends.
proof fn lemma_strip(s: Seq<char>, p: spec_fn(char) -> bool, a: int, b: int)
    requires
        0 <= a <= b <= s.len(),
        forall|i: int| 0 <= i < a ==> p(#[trigger] s[i]),
        a < b ==> !p(s[a]),
        a == b ==> forall|i: int| 0 <= i < s.len() ==> p(#[trigger] s[i]),
        forall|i: int| b <= i < s.len() ==> p(#[trigger] s[i]),
        a < b ==> !p(s[b - 1]),
    ensures
        trim_by(s, p) == s.subrange(a, b),
{
    if a < b {
        lemma_strip_front(s, p, a);
        let f = s.subrange(a, s.len() as int);
        assert forall|i: int| b - a <= i < f.len() implies p(#[trigger] f[i]) by { assert(f[i] == s[a + i]); }
        assert(f[b - a - 1] == s[b - 1]);
        lemma_strip_back(f, p, b - a);
        assert(f.subrange(0, b - a) =~= s.subrange(a, b));
    } else {
        lemma_strip_front(s, p, s.len() as int);
        let f = s.subrange(s.len() as int, s.len() as int);
        lemma_strip_back(f, p, 0);
        assert(f.subrange(0, 0) =~= s.subrange(a, b));
    }
}

proof fn lemma_strip_front(s: Seq<char>, p: spec_fn(char) -> bool, a: int)
    requires
        0 <= a <= s.len(),
        forall|i: int| 0 <= i < a ==> p(#[trigger] s[i]),
        a < s.len() ==> !p(s[a]),
    ensures
        strip_front(s, p) == s.subrange(a, s.len() as int),
    decreases a,
{
    if a > 0 {
        assert forall|i: int| 0 <= i < a - 1 implies p(#[trigger] s.drop_first()[i]) by {
            assert(s.drop_first()[i] == s[i + 1]);
        }
        lemma_strip_front(s.drop_first(), p, a - 1);
        assert(s.drop_first().subrange(a - 1, s.len() - 1) =~= s.subrange(a, s.len() as int));
    } else {
        assert(s.subrange(0, s.len() as int) =~= s);
    }
}

proof fn lemma_strip_back(s: Seq<char>, p: spec_fn(char) -> bool, b: int)
    requires
        0 <= b <= s.len(),
        forall|i: int| b <= i < s.len() ==> p(#[trigger] s[i]),
        b > 0 ==> !p(s[b - 1]),
    ensures
        strip_back(s, p) == s.subrange(0, b),
    decreases s.len() - b,
{
    if b < s.len() {
        assert(p(s[s.len() - 1]));
        assert forall|i: int| b <= i < s.len() - 1 implies p(#[trigger] s.drop_last()[i]) by {
            assert(s.drop_last()[i] == s[i]);
        }
        lemma_strip_back(s.drop_last(), p, b);
        assert(s.drop_last().subrange(0, b) =~= s.subrange(0, b));
    } else {
        assert(s.subrange(0, b) =~= s);
    }
}

/// The bounds of the text that remains once the characters satisfying a
/// test are stripped from both ends.
fn trim_bounds(cs: &Vec<char>, lo: usize, hi: usize, punct: bool) -> (r: (usize, usize))
    requires
        lo <= hi <= cs@.len(),
    ensures
        lo <= r.0 <= r.1 <= hi,
        punct ==> trim_by(cs@.subrange(lo as int, hi as int), |c: char| is_id_punctuation(c)) == cs@.subrange(r.0 as int, r.1 as int),
        !punct ==> trim_by(cs@.subrange(lo as int, hi as int), |c: char| is_white_space(c)) == cs@.subrange(r.0 as int, r.1 as int),
{
    let ghost p: spec_fn(char) -> bool = if punct { |c: char| is_id_punctuation(c) } else { |c: char| is_white_space(c) };
    let ghost s = cs@.subrange(lo as int, hi as int);
    let mut a = lo;
    while a < hi && char_matches(cs[a], punct)
        invariant
            lo <= a <= hi,
            hi <= cs@.len(),
            s == cs@.subrange(lo as int, hi as int),
            p == (if punct { |c: char| is_id_punctuation(c) } else { |c: char| is_white_space(c) }),
            forall|i: int| lo <= i < a ==> p(#[trigger] cs@[i]),
        decreases hi - a,
    {
        a = a + 1;
    }
    let mut b = hi;
    while b > a && char_matches(cs[b - 1], punct)
        invariant
            lo <= a <= b <= hi,
            hi <= cs@.len(),
            p == (if punct { |c: char| is_id_punctuation(c) } else { |c: char| is_white_space(c) }),
            forall|i: int| b <= i < hi ==> p(#[trigger] cs@[i]),
        decreases b - a,
    {
        b = b - 1;
    }
    proof {
        assert forall|i: int| 0 <= i < a - lo implies p(#[trigger] s[i]) by { assert(s[i] == cs@[lo + i]); }
        assert forall|i: int| b - lo <= i < s.len() implies p(#[trigger] s[i]) by { assert(s[i] == cs@[lo + i]); }
        if a == b {
            assert forall|i: int| 0 <= i < s.len() implies p(#[trigger] s[i]) by {
                assert(s[i] == cs@[lo + i]);
                if lo + i >= b {
                } else {
                    assert(lo + i < a);
                }
            }
        } else {
            assert(s[a - lo] == cs@[a as int]);
            assert(s[b - lo - 1] == cs@[b - 1]);
        }
        lemma_strip(s, p, a - lo, b - lo);
        assert(s.subrange(a - lo, b - lo) =~= cs@.subrange(a as int, b as int));
    }
    (a, b)
}

/// Whether a character is punctuation to trim (`punct`) or white space.
fn char_matches(c: char, punct: bool) -> (r: bool)
    ensures
        punct ==> r == is_id_punctuation(c),
        !punct ==> r == is_white_space(c),
{
    if punct {
        c == '[' || c == ']' || c == ' ' || c == ','
    } else {
        c == ' ' || ('\u{9}' <= c && c <= '\u{d}') || c == '\u{85}' || c == '\u{a0}' || c == '\u{1680}'
            || ('\u{2000}' <= c && c <= '\u{200a}') || c == '\u{2028}' || c == '\u{2029}' || c == '\u{202f}'
            || c == '\u{205f}' || c == '\u{3000}'
    }
}


/// The bounds of the pieces of `cs[a..b]` between commas.
fn split_bounds(cs: &Vec<char>, a: usize, b: usize) -> (r: Vec<(usize, usize)>)
    requires
        a <= b <= cs@.len(),
    ensures
        forall|k: int| 0 <= k < r@.len() ==> a <= (#[trigger] r@[k]).0 <= r@[k].1 <= b,
        Seq::new(r@.len(), |k: int| cs@.subrange(r@[k].0 as int, r@[k].1 as int)) == split_commas(cs@.subrange(a as int, b as int)),
{
    let mut bounds: Vec<(usize, usize)> = Vec::new();
    let mut start = a;
    let mut i = a;
    proof {
        assert(cs@.subrange(a as int, a as int) =~= Seq::<char>::empty());
        assert(Seq::new(bounds@.len(), |k: int| cs@.subrange(bounds@[k].0 as int, bounds@[k].1 as int)).push(cs@.subrange(start as int, i as int))
            =~= split_commas(cs@.subrange(a as int, i as int)));
    }
    while i < b
        invariant
            a <= start <= i <= b,
            b <= cs@.len(),
            forall|k: int| 0 <= k < bounds@.len() ==> a <= (#[trigger] bounds@[k]).0 <= bounds@[k].1 <= b,
            Seq::new(bounds@.len(), |k: int| cs@.subrange(bounds@[k].0 as int, bounds@[k].1 as int)).push(cs@.subrange(start as int, i as int))
                == split_commas(cs@.subrange(a as int, i as int)),
        decreases b - i,
    {
        let ghost prev = Seq::new(bounds@.len(), |k: int| cs@.subrange(bounds@[k].0 as int, bounds@[k].1 as int));
        proof {
            assert(cs@.subrange(a as int, i as int + 1).drop_last() =~= cs@.subrange(a as int, i as int));
            assert(cs@.subrange(a as int, i as int + 1).last() == cs@[i as int]);
        }
        if cs[i] == ',' {
            bounds.push((start, i));
            start = i + 1;
            proof {
                assert(Seq::new(bounds@.len(), |k: int| cs@.subrange(bounds@[k].0 as int, bounds@[k].1 as int))
                    =~= prev.push(cs@.subrange(bounds@[bounds@.len() - 1].0 as int, i as int)));
                assert(cs@.subrange(start as int, i as int + 1) =~= Seq::<char>::empty());
            }
        } else {
            proof {
                assert(cs@.subrange(start as int, i as int + 1) =~= cs@.subrange(start as int, i as int).push(cs@[i as int]));
                let sp = split_commas(cs@.subrange(a as int, i as int));
                assert(prev.push(cs@.subrange(start as int, i as int + 1)) =~= sp.update(sp.len() - 1, sp.last().push(cs@[i as int])));
            }
        }
        i = i + 1;
    }
    bounds.push((start, b));
    proof {
        let ghost nb = Seq::new(bounds@.len(), |k: int| cs@.subrange(bounds@[k].0 as int, bounds@[k].1 as int));
        assert(nb =~= Seq::new((bounds@.len() - 1) as nat, |k: int| cs@.subrange(bounds@[k].0 as int, bounds@[k].1 as int)).push(cs@.subrange(start as int, b as int)));
    }
    bounds
}

proof fn lemma_decimal_prefix(s: Seq<char>, k: int)
    requires
        0 <= k <= s.len(),
        forall|i: int| 0 <= i < s.len() ==> is_decimal_digit(#[trigger] s[i]),
    ensures
        0 <= decimal_value(s.take(k)) <= decimal_value(s),
    decreases s.len(),
{
    if s.len() > 0 {
        if k == s.len() {
            assert(s.take(k) =~= s);
            lemma_decimal_prefix(s.drop_last(), k - 1);
        } else {
            assert forall|i: int| 0 <= i < s.drop_last().len() implies is_decimal_digit(#[trigger] s.drop_last()[i]) by {
                assert(s.drop_last()[i] == s[i]);
            }
            lemma_decimal_prefix(s.drop_last(), k);
            assert(s.drop_last().take(k) =~= s.take(k));
            assert(is_decimal_digit(s[s.len() - 1]));
        }
    } else {
        assert(s.take(k) =~= s);
    }
}

/// The byte that `cs[lo..hi]` denotes (see [`parse_u8_spec`]).
fn parse_u8_at(cs: &Vec<char>, lo: usize, hi: usize) -> (r: Option<u8>)
    requires
        lo <= hi <= cs@.len(),
    ensures
        r == parse_u8_spec(cs@.subrange(lo as int, hi as int)),
{
    let ghost s = cs@.subrange(lo as int, hi as int);
    let start = if lo < hi && cs[lo] == '+' { lo + 1 } else { lo };
    let ghost d = cs@.subrange(start as int, hi as int);
    proof {
        if lo < hi && cs@[lo as int] == '+' {
            assert(s[0] == '+');
            assert(s.drop_first() =~= d);
        } else {
            assert(s =~= d);
        }
    }
    if start == hi {
        return None;
    }
    let mut v: u32 = 0;
    let mut j = start;
    proof { assert(d.take(0) =~= Seq::<char>::empty()); }
    while j < hi
        invariant
            start <= j <= hi,
            hi <= cs@.len(),
            d == cs@.subrange(start as int, hi as int),
            d.len() > 0,
            parse_u8_spec(cs@.subrange(lo as int, hi as int)) == digits_u8(d),
            v < 256,
            v == decimal_value(d.take(j - start)),
            forall|i: int| 0 <= i < j - start ==> is_decimal_digit(#[trigger] d[i]),
        decreases hi - j,
    {
        let c = cs[j];
        proof {
            assert(d[j - start] == c);
            assert(d.take(j - start + 1).drop_last() =~= d.take(j - start));
            assert(d.take(j - start + 1).last() == c);
        }
        if !('0' <= c && c <= '9') {
            proof { assert(!is_decimal_digit(d[j - start])); }
            return None;
        }
        let digit = (c as u32) - 48;
        let nv = v * 10 + digit;
        if nv >= 256 {
            proof {
                if forall|i: int| 0 <= i < d.len() ==> is_decimal_digit(#[trigger] d[i]) {
                    lemma_decimal_prefix(d, j - start + 1);
                }
            }
            return None;
        }
        v = nv;
        j = j + 1;
    }
    proof { assert(d.take(hi - start) =~= d); }
    Some(v as u8)
}

/// The first entry, from `from` on, that is not a byte value.
proof fn lemma_first_bad_none(parts: Seq<Seq<char>>, from: int)
    requires
        0 <= from <= parts.len(),
        forall|k: int| from <= k < parts.len() ==> parse_u8_spec(trim_by(#[trigger] parts[k], |c: char| is_white_space(c))) is Some,
    ensures
        first_bad_part(parts, from) is None,
    decreases parts.len() - from,
{
    if from < parts.len() {
        lemma_first_bad_none(parts, from + 1);
    }
}

proof fn lemma_first_bad_some(parts: Seq<Seq<char>>, from: int, i: int)
    requires
        0 <= from <= i < parts.len(),
        forall|k: int| from <= k < i ==> parse_u8_spec(trim_by(#[trigger] parts[k], |c: char| is_white_space(c))) is Some,
        parse_u8_spec(trim_by(parts[i], |c: char| is_white_space(c))) is None,
    ensures
        first_bad_part(parts, from) == Some(i),
    decreases i - from,
{
    if from < i {
        lemma_first_bad_some(parts, from + 1, i);
    }
}

/// Parses a message id written as 32 byte values separated by commas,
/// optionally in brackets (`[1, 2, ..., 32]`).
pub fn parse_message_id(id_str: &str) -> (r: Result<MessageId, ParseIdError>)
    ensures
        id_parts(id_str@).len() != 32 ==> r == Err::<MessageId, ParseIdError>(ParseIdError::WrongLength),
        id_parts(id_str@).len() == 32 ==> match first_bad_part(id_parts(id_str@), 0) {
            Some(i) => r matches Err(ParseIdError::InvalidByte { position, part }) && position == i && part@ == id_parts(id_str@)[i],
            None => r matches Ok(id) && forall|k: int| 0 <= k < 32 ==>
                Some(#[trigger] id.0[k]) == parse_u8_spec(trim_by(id_parts(id_str@)[k], |c: char| is_white_space(c))),
        },
{
    let cs = chars_of(id_str);
    let (a, b) = trim_bounds(&cs, 0, cs.len(), true);
    proof { assert(cs@.subrange(0, cs@.len() as int) =~= cs@); }
    let bounds = split_bounds(&cs, a, b);
    let ghost parts = id_parts(id_str@);
    proof {
        assert(parts == Seq::new(bounds@.len(), |k: int| cs@.subrange(bounds@[k].0 as int, bounds@[k].1 as int)));
    }
    if bounds.len() != 32 {
        return Err(ParseIdError::WrongLength);
    }
    let mut bytes = [0u8; 32];
    let mut k: usize = 0;
    while k < 32
        invariant
            k <= 32,
            bounds@.len() == 32,
            cs@ == id_str@,
            parts == id_parts(id_str@),
            forall|q: int| 0 <= q < bounds@.len() ==> (#[trigger] bounds@[q]).0 <= bounds@[q].1 <= cs@.len(),
            parts == Seq::new(bounds@.len(), |q: int| cs@.subrange(bounds@[q].0 as int, bounds@[q].1 as int)),
            forall|q: int| 0 <= q < k ==> Some(#[trigger] bytes[q]) == parse_u8_spec(trim_by(parts[q], |c: char| is_white_space(c))),
        decreases 32 - k,
    {
        let (lo, hi) = bounds[k];
        let (x, y) = trim_bounds(&cs, lo, hi, false);
        proof { assert(parts[k as int] == cs@.subrange(lo as int, hi as int)); }
        match parse_u8_at(&cs, x, y) {
            Some(v) => {
                bytes[k] = v;
                proof {
                    assert forall|q: int| 0 <= q < k + 1 implies Some(#[trigger] bytes[q]) == parse_u8_spec(trim_by(parts[q], |c: char| is_white_space(c))) by {
                        if q < k {
                        }
                    }
                }
            },
            None => {
                proof {
                    assert forall|q: int| 0 <= q < k implies parse_u8_spec(trim_by(#[trigger] parts[q], |c: char| is_white_space(c))) is Some by {
                        assert(Some(bytes[q]) == parse_u8_spec(trim_by(parts[q], |c: char| is_white_space(c))));
                    }
                    lemma_first_bad_some(parts, 0, k as int);
                }
                let part = id_str.substring_char(lo, hi).to_owned();
                return Err(ParseIdError::InvalidByte { position: k, part });
            },
        }
        k = k + 1;
    }
    proof {
        assert forall|q: int| 0 <= q < 32 implies parse_u8_spec(trim_by(#[trigger] parts[q], |c: char| is_white_space(c))) is Some by {
            assert(Some(bytes[q]) == parse_u8_spec(trim_by(parts[q], |c: char| is_white_space(c))));
        }
        lemma_first_bad_none(parts, 0);
    }
    Ok(MessageId(bytes))
}

} // verus!
