//! Messages exchanged between the transport, the registry, and the
//! status fan-out.

use crate::peer::Peer;
use vstd::prelude::*;

verus! {

/// A heartbeat-protocol message.  `Ping` and `Pong` travel on the wire;
/// `DoPing` is the transport's local self-command to emit a ping towards
/// an endpoint (raw `host:port` bytes) and is never transmitted;
/// `Unknown` stands for a decodable frame of no known variant.
#[derive(Debug, Clone, PartialEq)]
pub enum HeartBeat {
    Ping(u128, u64),
    Pong(u128, u64),
    Unknown,
    DoPing(u128, u64, Vec<u8>),
}

/// Abstract form of a heartbeat message.
pub ghost enum HeartBeatModel {
    Ping { id: u128, ts: u64 },
    Pong { id: u128, ts: u64 },
    Unknown,
    DoPing { id: u128, ts: u64, addr: Seq<u8> },
}

impl View for HeartBeat {
    type V = HeartBeatModel;

    open spec fn view(&self) -> HeartBeatModel {
        match self {
            HeartBeat::Ping(id, ts) => HeartBeatModel::Ping { id: *id, ts: *ts },
            HeartBeat::Pong(id, ts) => HeartBeatModel::Pong { id: *id, ts: *ts },
            HeartBeat::Unknown => HeartBeatModel::Unknown,
            HeartBeat::DoPing(id, ts, addr) => HeartBeatModel::DoPing {
                id: *id,
                ts: *ts,
                addr: addr@,
            },
        }
    }
}

/// Registration events the registry and the transport consume.
#[derive(Debug, Clone)]
pub enum Monitor {
    Register(Peer),
    UnRegister(u128),
}

/// Subscription events for the status fan-out.
#[derive(Debug, Clone, PartialEq, Eq, Structural)]
pub enum StatusEvent {
    Subscribe,
    UnSubscribe,
}

/// Point-in-time rendering of one monitored peer: identity, the most
/// recent intervals (most-recent-first), the suspicion level in
/// thousandths of phi, the verdict, and the last heartbeat timestamp.
#[derive(Debug, Clone)]
pub struct PeerStatus {
    pub id: u128,
    pub name: String,
    pub address: String,
    pub history: Vec<u64>,
    pub phi: u64,
    pub state: crate::phi::State,
    pub last: u64,
}

/// A full snapshot: one `PeerStatus` per registered peer.
#[derive(Debug, Clone)]
pub struct Status(pub Vec<PeerStatus>);

// ---------------------------------------------------------------------
// The wire codec.
//
// One datagram carries one length-prefixed frame: a 2-byte big-endian
// length N followed by N bytes of message body.  The body is the
// canonical rendering of the message as a tagged union:
//
//   {"Ping":["<id>",<ts>]}     {"Pong":["<id>",<ts>]}
//   {"DoPing":["<id>",<ts>,"<addr>"]}     "Unknown"
//
// with <id> the 36-byte hyphenated lowercase hex form and <ts> a bare
// decimal.  The decoder is strict: it accepts exactly the canonical
// form, reports "need more data" on a short buffer without consuming
// anything, and drops a complete frame whose body does not parse,
// leaving the stream aligned on the next frame.
// ---------------------------------------------------------------------

/// `"Unknown"`.
pub open spec fn unknown_body() -> Seq<u8> {
    seq![34u8, 85u8, 110u8, 107u8, 110u8, 111u8, 119u8, 110u8, 34u8]
}

/// `{"Ping":["`.
pub open spec fn ping_prefix() -> Seq<u8> {
    seq![123u8, 34u8, 80u8, 105u8, 110u8, 103u8, 34u8, 58u8, 91u8, 34u8]
}

/// `{"Pong":["`.
pub open spec fn pong_prefix() -> Seq<u8> {
    seq![123u8, 34u8, 80u8, 111u8, 110u8, 103u8, 34u8, 58u8, 91u8, 34u8]
}

/// `{"DoPing":["`.
pub open spec fn doping_prefix() -> Seq<u8> {
    seq![123u8, 34u8, 68u8, 111u8, 80u8, 105u8, 110u8, 103u8, 34u8, 58u8, 91u8, 34u8]
}

/// Bytes allowed in an endpoint string: printable ASCII without the
/// quote and the backslash, so no escaping is ever needed.
pub open spec fn addr_ok(a: Seq<u8>) -> bool {
    forall|i: int| 0 <= i < a.len() ==> 32 <= #[trigger] a[i] <= 126 && a[i] != 34 && a[i] != 92
}

/// Canonical body bytes of a message.
pub open spec fn spec_encode_body(m: HeartBeatModel) -> Seq<u8> {
    match m {
        HeartBeatModel::Ping { id, ts } => ping_prefix() + crate::wire::uuid_seq(id) + seq![
            34u8,
            44u8,
        ] + crate::wire::dec_digits(ts as int) + seq![93u8, 125u8],
        HeartBeatModel::Pong { id, ts } => pong_prefix() + crate::wire::uuid_seq(id) + seq![
            34u8,
            44u8,
        ] + crate::wire::dec_digits(ts as int) + seq![93u8, 125u8],
        HeartBeatModel::Unknown => unknown_body(),
        HeartBeatModel::DoPing { id, ts, addr } => doping_prefix() + crate::wire::uuid_seq(id)
            + seq![34u8, 44u8] + crate::wire::dec_digits(ts as int) + seq![44u8, 34u8] + addr
            + seq![34u8, 93u8, 125u8],
    }
}

/// Encodable: the endpoint bytes need no escaping and the body fits the
/// 16-bit length prefix.
pub open spec fn wf_msg(m: HeartBeatModel) -> bool {
    &&& m matches HeartBeatModel::DoPing { addr, .. } ==> addr_ok(addr)
    &&& spec_encode_body(m).len() <= 65535
}

/// A whole frame: 2-byte big-endian length, then the body.
pub open spec fn spec_encode(m: HeartBeatModel) -> Seq<u8> {
    let body = spec_encode_body(m);
    seq![(body.len() / 256) as u8, (body.len() % 256) as u8] + body
}

/// `"` then `,`, between the id and the timestamp.
pub open spec fn quote_comma() -> Seq<u8> {
    seq![34u8, 44u8]
}

/// Parse of the tail common to `Ping` and `Pong`: 36 id bytes, `",`,
/// the decimal timestamp, then `]}` closing the body.
pub open spec fn spec_parse_pair(rest: Seq<u8>) -> Option<(u128, u64)> {
    if rest.len() < 41 {
        None
    } else if rest[36] != 34 || rest[37] != 44 {
        None
    } else if rest[rest.len() - 2] != 93 || rest[rest.len() - 1] != 125 {
        None
    } else {
        match crate::wire::spec_parse_uuid(rest.take(36)) {
            None => None,
            Some(id) => match crate::wire::spec_parse_dec(
                rest.subrange(38, rest.len() - 2),
            ) {
                None => None,
                Some(ts) => Some((id, ts)),
            },
        }
    }
}

/// First position at or after `i` holding a non-digit.
pub open spec fn first_non_digit(s: Seq<u8>, i: int) -> int
    decreases s.len() - i,
{
    if i < 0 || i >= s.len() {
        s.len() as int
    } else if crate::wire::is_digit(s[i]) {
        first_non_digit(s, i + 1)
    } else {
        i
    }
}

pub proof fn lemma_first_non_digit(s: Seq<u8>, i: int, j: int)
    requires
        0 <= i <= j <= s.len(),
        forall|k: int| i <= k < j ==> crate::wire::is_digit(#[trigger] s[k]),
        j == s.len() || !crate::wire::is_digit(s[j]),
    ensures
        first_non_digit(s, i) == j,
    decreases j - i,
{
    if i < j {
        lemma_first_non_digit(s, i + 1, j);
    }
}

/// Parse of the `DoPing` tail: 36 id bytes, `",`, the decimal
/// timestamp, `,"`, the endpoint bytes, then `"]}` closing the body.
pub open spec fn spec_parse_doping(rest: Seq<u8>) -> Option<(u128, u64, Seq<u8>)> {
    let n = rest.len() as int;
    if n < 44 {
        None
    } else if rest[36] != 34 || rest[37] != 44 {
        None
    } else {
        let j = first_non_digit(rest, 38);
        if j == 38 || j + 5 > n {
            None
        } else if rest[j] != 44 || rest[j + 1] != 34 {
            None
        } else if rest[n - 3] != 34 || rest[n - 2] != 93 || rest[n - 1] != 125 {
            None
        } else {
            let addr = rest.subrange(j + 2, n - 3);
            if !addr_ok(addr) {
                None
            } else {
                match crate::wire::spec_parse_uuid(rest.take(36)) {
                    None => None,
                    Some(id) => match crate::wire::spec_parse_dec(rest.subrange(38, j)) {
                        None => None,
                        Some(ts) => Some((id, ts, addr)),
                    },
                }
            }
        }
    }
}

/// `b` begins with `p`.
pub open spec fn spec_starts_with(b: Seq<u8>, p: Seq<u8>) -> bool {
    b.len() >= p.len() && b.take(p.len() as int) == p
}

/// Strict parse of a complete body.
pub open spec fn spec_parse_body(b: Seq<u8>) -> Option<HeartBeatModel> {
    if b == unknown_body() {
        Some(HeartBeatModel::Unknown)
    } else if spec_starts_with(b, ping_prefix()) {
        match spec_parse_pair(b.skip(10)) {
            None => None,
            Some((id, ts)) => Some(HeartBeatModel::Ping { id, ts }),
        }
    } else if spec_starts_with(b, pong_prefix()) {
        match spec_parse_pair(b.skip(10)) {
            None => None,
            Some((id, ts)) => Some(HeartBeatModel::Pong { id, ts }),
        }
    } else if spec_starts_with(b, doping_prefix()) {
        match spec_parse_doping(b.skip(12)) {
            None => None,
            Some((id, ts, addr)) => Some(HeartBeatModel::DoPing { id, ts, addr }),
        }
    } else {
        None
    }
}

/// Abstract outcome of one decode step.
pub ghost enum DecodedModel {
    NeedMore,
    Frame { msg: HeartBeatModel, used: int },
    Dropped { used: int },
}

/// One decode step on a buffer: nothing is consumed until a whole frame
/// is present; a complete frame is consumed whether or not its body
/// parses.
pub open spec fn spec_decode(buf: Seq<u8>) -> DecodedModel {
    if buf.len() < 2 {
        DecodedModel::NeedMore
    } else {
        let n = buf[0] * 256 + buf[1];
        if buf.len() < 2 + n {
            DecodedModel::NeedMore
        } else {
            match spec_parse_body(buf.subrange(2, 2 + n)) {
                Some(m) => DecodedModel::Frame { msg: m, used: 2 + n },
                None => DecodedModel::Dropped { used: 2 + n },
            }
        }
    }
}

/// Outcome of one decode step.
#[derive(Debug, PartialEq)]
pub enum DecodeResult {
    /// The buffer does not yet hold a whole frame; nothing was consumed.
    NeedMore,
    /// A frame decoded to a message; the given number of bytes was
    /// consumed.
    Frame(HeartBeat, usize),
    /// A complete frame whose body does not parse was dropped; the given
    /// number of bytes was consumed.
    Dropped(usize),
}

impl View for DecodeResult {
    type V = DecodedModel;

    open spec fn view(&self) -> DecodedModel {
        match self {
            DecodeResult::NeedMore => DecodedModel::NeedMore,
            DecodeResult::Frame(msg, used) => DecodedModel::Frame {
                msg: msg@,
                used: *used as int,
            },
            DecodeResult::Dropped(used) => DecodedModel::Dropped { used: *used as int },
        }
    }
}

/// The wire codec for heartbeat messages.
pub struct HBCodec;

/// Body of a `Ping` or `Pong` (they differ only in the tag byte).
fn body_pair(pong: bool, id: u128, ts: u64) -> (v: Vec<u8>)
    ensures
        v@ == spec_encode_body(
            if pong {
                HeartBeatModel::Pong { id, ts }
            } else {
                HeartBeatModel::Ping { id, ts }
            },
        ),
{
    let mut v: Vec<u8> = Vec::new();
    v.push(123);
    v.push(34);
    v.push(80);
    if pong {
        v.push(111);
    } else {
        v.push(105);
    }
    v.push(110);
    v.push(103);
    v.push(34);
    v.push(58);
    v.push(91);
    v.push(34);
    let mut u = crate::wire::uuid_bytes(id);
    v.append(&mut u);
    v.push(34);
    v.push(44);
    let mut d = crate::wire::u64_to_dec(ts);
    v.append(&mut d);
    v.push(93);
    v.push(125);
    proof {
        if pong {
            assert(v@ =~= pong_prefix() + crate::wire::uuid_seq(id) + seq![34u8, 44u8]
                + crate::wire::dec_digits(ts as int) + seq![93u8, 125u8]);
        } else {
            assert(v@ =~= ping_prefix() + crate::wire::uuid_seq(id) + seq![34u8, 44u8]
                + crate::wire::dec_digits(ts as int) + seq![93u8, 125u8]);
        }
    }
    v
}

/// Body of a `DoPing`.
fn body_doping(id: u128, ts: u64, addr: &Vec<u8>) -> (v: Vec<u8>)
    ensures
        v@ == spec_encode_body(HeartBeatModel::DoPing { id, ts, addr: addr@ }),
{
    let mut v: Vec<u8> = Vec::new();
    v.push(123);
    v.push(34);
    v.push(68);
    v.push(111);
    v.push(80);
    v.push(105);
    v.push(110);
    v.push(103);
    v.push(34);
    v.push(58);
    v.push(91);
    v.push(34);
    let mut u = crate::wire::uuid_bytes(id);
    v.append(&mut u);
    v.push(34);
    v.push(44);
    let mut d = crate::wire::u64_to_dec(ts);
    v.append(&mut d);
    v.push(44);
    v.push(34);
    let mut a = addr.clone();
    v.append(&mut a);
    v.push(34);
    v.push(93);
    v.push(125);
    proof {
        assert(v@ =~= doping_prefix() + crate::wire::uuid_seq(id) + seq![34u8, 44u8]
            + crate::wire::dec_digits(ts as int) + seq![44u8, 34u8] + addr@ + seq![
            34u8,
            93u8,
            125u8,
        ]);
    }
    v
}

/// Checks that endpoint bytes need no escaping.
fn addr_ok_exec(addr: &Vec<u8>) -> (r: bool)
    ensures
        r == addr_ok(addr@),
{
    let n = addr.len();
    let mut k: usize = 0;
    while k < n
        invariant
            k <= n,
            n == addr@.len(),
            forall|i: int| 0 <= i < k ==> 32 <= #[trigger] addr@[i] <= 126 && addr@[i] != 34
                && addr@[i] != 92,
        decreases n - k,
    {
        let b = addr[k];
        if b < 32 || b > 126 || b == 34 || b == 92 {
            return false;
        }
        k = k + 1;
    }
    true
}

/// Mirror of `spec_parse_pair`.
fn parse_pair(rest: &[u8]) -> (r: Option<(u128, u64)>)
    ensures
        r == spec_parse_pair(rest@),
{
    let n = rest.len();
    if n < 41 {
        return None;
    }
    if rest[36] != 34 || rest[37] != 44 {
        return None;
    }
    if rest[n - 2] != 93 || rest[n - 1] != 125 {
        return None;
    }
    proof {
        assert(vstd::slice::spec_slice_len(rest) == rest@.len());
    }
    let up = vstd::slice::slice_subrange(rest, 0, 36);
    proof {
        assert(up@ =~= rest@.take(36));
    }
    match crate::wire::parse_uuid(up) {
        None => None,
        Some(id) => {
            let dp = vstd::slice::slice_subrange(rest, 38, n - 2);
            match crate::wire::parse_dec(dp) {
                None => None,
                Some(ts) => Some((id, ts)),
            }
        }
    }
}

/// Mirror of `spec_parse_doping`.
fn parse_doping(rest: &[u8]) -> (r: Option<(u128, u64, Vec<u8>)>)
    ensures
        match r {
            Some((id, ts, addr)) => spec_parse_doping(rest@) == Some((id, ts, addr@)),
            None => spec_parse_doping(rest@) is None,
        },
{
    let n = rest.len();
    if n < 44 {
        return None;
    }
    if rest[36] != 34 || rest[37] != 44 {
        return None;
    }
    let mut j: usize = 38;
    while j < n && 48 <= rest[j] && rest[j] <= 57
        invariant
            38 <= j <= n,
            n == rest@.len(),
            forall|k: int| 38 <= k < j ==> crate::wire::is_digit(#[trigger] rest@[k]),
        decreases n - j,
    {
        j = j + 1;
    }
    proof {
        lemma_first_non_digit(rest@, 38, j as int);
    }
    if j == 38 || j > n - 5 {
        return None;
    }
    if rest[j] != 44 || rest[j + 1] != 34 {
        return None;
    }
    if rest[n - 3] != 34 || rest[n - 2] != 93 || rest[n - 1] != 125 {
        return None;
    }
    let ap = vstd::slice::slice_subrange(rest, j + 2, n - 3);
    let addr = vstd::slice::slice_to_vec(ap);
    if !addr_ok_exec(&addr) {
        return None;
    }
    let up = vstd::slice::slice_subrange(rest, 0, 36);
    proof {
        assert(up@ =~= rest@.take(36));
    }
    match crate::wire::parse_uuid(up) {
        None => None,
        Some(id) => {
            let dp = vstd::slice::slice_subrange(rest, 38, j);
            match crate::wire::parse_dec(dp) {
                None => None,
                Some(ts) => Some((id, ts, addr)),
            }
        }
    }
}

/// Mirror of `spec_parse_body`.
fn parse_body(b: &[u8]) -> (r: Option<HeartBeat>)
    ensures
        match r {
            Some(msg) => spec_parse_body(b@) == Some(msg@),
            None => spec_parse_body(b@) is None,
        },
{
    let n = b.len();
    if n == 9 && b[0] == 34 && b[1] == 85 && b[2] == 110 && b[3] == 107 && b[4] == 110 && b[5]
        == 111 && b[6] == 119 && b[7] == 110 && b[8] == 34 {
        proof {
            assert(b@ =~= unknown_body());
        }
        return Some(HeartBeat::Unknown);
    }
    proof {
        assert(b@ != unknown_body()) by {
            if b@ == unknown_body() {
                assert(b@.len() == 9);
                assert(b@[0] == 34u8);
                assert(b@[1] == 85u8);
                assert(b@[2] == 110u8);
                assert(b@[3] == 107u8);
                assert(b@[4] == 110u8);
                assert(b@[5] == 111u8);
                assert(b@[6] == 119u8);
                assert(b@[7] == 110u8);
                assert(b@[8] == 34u8);
            }
        }
    }
    if n >= 10 && b[0] == 123 && b[1] == 34 && b[2] == 80 && b[3] == 105 && b[4] == 110 && b[5]
        == 103 && b[6] == 34 && b[7] == 58 && b[8] == 91 && b[9] == 34 {
        proof {
            assert(b@.take(10) =~= ping_prefix());
        }
        let rest = vstd::slice::slice_subrange(b, 10, n);
        proof {
            assert(rest@ =~= b@.skip(10));
        }
        return match parse_pair(rest) {
            Some((id, ts)) => Some(HeartBeat::Ping(id, ts)),
            None => None,
        };
    }
    proof {
        assert(!spec_starts_with(b@, ping_prefix())) by {
            if spec_starts_with(b@, ping_prefix()) {
                assert(b@.len() >= 10);
                assert(b@.take(10) == ping_prefix());
                assert(b@[0] == b@.take(10)[0]);
                assert(b@[1] == b@.take(10)[1]);
                assert(b@[2] == b@.take(10)[2]);
                assert(b@[3] == b@.take(10)[3]);
                assert(b@[4] == b@.take(10)[4]);
                assert(b@[5] == b@.take(10)[5]);
                assert(b@[6] == b@.take(10)[6]);
                assert(b@[7] == b@.take(10)[7]);
                assert(b@[8] == b@.take(10)[8]);
                assert(b@[9] == b@.take(10)[9]);
            }
        }
    }
    if n >= 10 && b[0] == 123 && b[1] == 34 && b[2] == 80 && b[3] == 111 && b[4] == 110 && b[5]
        == 103 && b[6] == 34 && b[7] == 58 && b[8] == 91 && b[9] == 34 {
        proof {
            assert(b@.take(10) =~= pong_prefix());
        }
        let rest = vstd::slice::slice_subrange(b, 10, n);
        proof {
            assert(rest@ =~= b@.skip(10));
        }
        return match parse_pair(rest) {
            Some((id, ts)) => Some(HeartBeat::Pong(id, ts)),
            None => None,
        };
    }
    proof {
        assert(!spec_starts_with(b@, pong_prefix())) by {
            if spec_starts_with(b@, pong_prefix()) {
                assert(b@.len() >= 10);
                assert(b@.take(10) == pong_prefix());
                assert(b@[0] == b@.take(10)[0]);
                assert(b@[1] == b@.take(10)[1]);
                assert(b@[2] == b@.take(10)[2]);
                assert(b@[3] == b@.take(10)[3]);
                assert(b@[4] == b@.take(10)[4]);
                assert(b@[5] == b@.take(10)[5]);
                assert(b@[6] == b@.take(10)[6]);
                assert(b@[7] == b@.take(10)[7]);
                assert(b@[8] == b@.take(10)[8]);
                assert(b@[9] == b@.take(10)[9]);
            }
        }
    }
    if n >= 12 && b[0] == 123 && b[1] == 34 && b[2] == 68 && b[3] == 111 && b[4] == 80 && b[5]
        == 105 && b[6] == 110 && b[7] == 103 && b[8] == 34 && b[9] == 58 && b[10] == 91 && b[11]
        == 34 {
        proof {
            assert(b@.take(12) =~= doping_prefix());
        }
        let rest = vstd::slice::slice_subrange(b, 12, n);
        proof {
            assert(rest@ =~= b@.skip(12));
        }
        return match parse_doping(rest) {
            Some((id, ts, addr)) => Some(HeartBeat::DoPing(id, ts, addr)),
            None => None,
        };
    }
    proof {
        assert(!spec_starts_with(b@, doping_prefix())) by {
            if spec_starts_with(b@, doping_prefix()) {
                assert(b@.len() >= 12);
                assert(b@.take(12) == doping_prefix());
                assert(b@[0] == b@.take(12)[0]);
                assert(b@[1] == b@.take(12)[1]);
                assert(b@[2] == b@.take(12)[2]);
                assert(b@[3] == b@.take(12)[3]);
                assert(b@[4] == b@.take(12)[4]);
                assert(b@[5] == b@.take(12)[5]);
                assert(b@[6] == b@.take(12)[6]);
                assert(b@[7] == b@.take(12)[7]);
                assert(b@[8] == b@.take(12)[8]);
                assert(b@[9] == b@.take(12)[9]);
                assert(b@[10] == b@.take(12)[10]);
                assert(b@[11] == b@.take(12)[11]);
            }
        }
    }
    None
}

impl HBCodec {
    /// Encodes a message as one length-prefixed frame; fails exactly
    /// when the message is not encodable (endpoint bytes that would
    /// need escaping, or a body over the 16-bit length limit).
    pub fn encode(msg: &HeartBeat) -> (r: Option<Vec<u8>>)
        ensures
            match r {
                Some(v) => wf_msg(msg@) && v@ == spec_encode(msg@),
                None => !wf_msg(msg@),
            },
    {
        let body: Vec<u8> = match msg {
            HeartBeat::Unknown => {
                let mut v: Vec<u8> = Vec::new();
                v.push(34);
                v.push(85);
                v.push(110);
                v.push(107);
                v.push(110);
                v.push(111);
                v.push(119);
                v.push(110);
                v.push(34);
                proof {
                    assert(v@ =~= unknown_body());
                }
                v
            }
            HeartBeat::Ping(id, ts) => body_pair(false, *id, *ts),
            HeartBeat::Pong(id, ts) => body_pair(true, *id, *ts),
            HeartBeat::DoPing(id, ts, addr) => {
                if !addr_ok_exec(addr) {
                    return None;
                }
                body_doping(*id, *ts, addr)
            }
        };
        let n = body.len();
        if n > 65535 {
            return None;
        }
        let mut out: Vec<u8> = Vec::new();
        out.push((n / 256) as u8);
        out.push((n % 256) as u8);
        let mut b = body;
        out.append(&mut b);
        proof {
            assert(out@ =~= spec_encode(msg@));
        }
        Some(out)
    }

    /// One decode step: `NeedMore` while the buffer holds less than one
    /// whole frame (nothing consumed), otherwise the frame is consumed
    /// and either decodes to a message or is dropped.
    pub fn decode(buf: &[u8]) -> (r: DecodeResult)
        ensures
            r@ == spec_decode(buf@),
    {
        if buf.len() < 2 {
            return DecodeResult::NeedMore;
        }
        let n: usize = (buf[0] as usize) * 256 + (buf[1] as usize);
        if buf.len() < 2 + n {
            return DecodeResult::NeedMore;
        }
        let body = vstd::slice::slice_subrange(buf, 2, 2 + n);
        match parse_body(body) {
            Some(msg) => DecodeResult::Frame(msg, 2 + n),
            None => DecodeResult::Dropped(2 + n),
        }
    }
}

/// Decoding inverts encoding: the canonical body of any encodable
/// message parses back to exactly that message.
pub proof fn lemma_codec_round_trip(m: HeartBeatModel)
    requires
        wf_msg(m),
    ensures
        spec_parse_body(spec_encode_body(m)) == Some(m),
{
    let b = spec_encode_body(m);
    match m {
        HeartBeatModel::Unknown => {
        }
        HeartBeatModel::Ping { id, ts } => {
            lemma_pair_round_trip(false, id, ts);
        }
        HeartBeatModel::Pong { id, ts } => {
            lemma_pair_round_trip(true, id, ts);
        }
        HeartBeatModel::DoPing { id, ts, addr } => {
            crate::wire::lemma_dec_digits_props(ts as int);
            crate::wire::lemma_parse_uuid_of_seq(id);
            let u = crate::wire::uuid_seq(id);
            let d = crate::wire::dec_digits(ts as int);
            let dlen = d.len() as int;
            let alen = addr.len() as int;
            assert(b.len() == 55 + dlen + alen);
            assert(b != unknown_body());
            assert(!spec_starts_with(b, ping_prefix())) by {
                if spec_starts_with(b, ping_prefix()) {
                    assert(b.take(10)[2] == ping_prefix()[2]);
                    assert(b[2] == 68);
                }
            }
            assert(!spec_starts_with(b, pong_prefix())) by {
                if spec_starts_with(b, pong_prefix()) {
                    assert(b.take(10)[2] == pong_prefix()[2]);
                    assert(b[2] == 68);
                }
            }
            assert(spec_starts_with(b, doping_prefix())) by {
                assert(b.take(12) =~= doping_prefix());
            }
            let rest = b.skip(12);
            assert(rest =~= u + quote_comma() + d + seq![44u8, 34u8] + addr + seq![
                34u8,
                93u8,
                125u8,
            ]);
            let n = rest.len() as int;
            assert(n == 43 + dlen + alen);
            assert(rest[36] == 34 && rest[37] == 44);
            assert(forall|k: int| 38 <= k < 38 + dlen ==> rest[k] == d[k - 38]);
            assert(forall|k: int|
                38 <= k < 38 + dlen ==> crate::wire::is_digit(#[trigger] rest[k]));
            assert(rest[38 + dlen] == 44);
            assert(!crate::wire::is_digit(rest[38 + dlen]));
            lemma_first_non_digit(rest, 38, 38 + dlen);
            let j = 38 + dlen;
            assert(j != 38 && j + 5 <= n);
            assert(rest[j] == 44 && rest[j + 1] == 34);
            assert(rest[n - 3] == 34 && rest[n - 2] == 93 && rest[n - 1] == 125);
            assert(rest.subrange(j + 2, n - 3) =~= addr);
            assert(rest.take(36) =~= u);
            assert(rest.subrange(38, j) =~= d);
            assert(spec_parse_doping(rest) == Some((id, ts, addr)));
        }
    }
}

proof fn lemma_pair_round_trip(pong: bool, id: u128, ts: u64)
    ensures
        spec_parse_body(
            spec_encode_body(
                if pong {
                    HeartBeatModel::Pong { id, ts }
                } else {
                    HeartBeatModel::Ping { id, ts }
                },
            ),
        ) == Some(
            if pong {
                HeartBeatModel::Pong { id, ts }
            } else {
                HeartBeatModel::Ping { id, ts }
            },
        ),
{
    crate::wire::lemma_dec_digits_props(ts as int);
    crate::wire::lemma_parse_uuid_of_seq(id);
    let m = if pong {
        HeartBeatModel::Pong { id, ts }
    } else {
        HeartBeatModel::Ping { id, ts }
    };
    let b = spec_encode_body(m);
    let u = crate::wire::uuid_seq(id);
    let d = crate::wire::dec_digits(ts as int);
    let dlen = d.len() as int;
    assert(b.len() == 50 + dlen);
    assert(b != unknown_body());
    if pong {
        assert(!spec_starts_with(b, ping_prefix())) by {
            if spec_starts_with(b, ping_prefix()) {
                assert(b.take(10)[3] == ping_prefix()[3]);
                assert(b[3] == 111);
            }
        }
        assert(spec_starts_with(b, pong_prefix())) by {
            assert(b.take(10) =~= pong_prefix());
        }
    } else {
        assert(spec_starts_with(b, ping_prefix())) by {
            assert(b.take(10) =~= ping_prefix());
        }
    }
    let rest = b.skip(10);
    assert(rest =~= u + seq![34u8, 44u8] + d + seq![93u8, 125u8]);
    let n = rest.len() as int;
    assert(n == 40 + dlen);
    assert(rest[36] == 34 && rest[37] == 44);
    assert(rest[n - 2] == 93 && rest[n - 1] == 125);
    assert(rest.take(36) =~= u);
    assert(rest.subrange(38, n - 2) =~= d);
    assert(spec_parse_pair(rest) == Some((id, ts)));
}

/// A buffer holding one whole encoded frame (and possibly more bytes)
/// decodes to exactly the encoded message, consuming exactly the frame.
pub proof fn lemma_decode_encode(m: HeartBeatModel, rest: Seq<u8>)
    requires
        wf_msg(m),
    ensures
        spec_decode(spec_encode(m) + rest) == (DecodedModel::Frame {
            msg: m,
            used: 2 + spec_encode_body(m).len() as int,
        }),
{
    let body = spec_encode_body(m);
    let l = body.len() as int;
    let buf = spec_encode(m) + rest;
    vstd::arithmetic::div_mod::lemma_div_pos_is_pos(l, 256);
    vstd::arithmetic::div_mod::lemma_div_is_ordered(l, 65535, 256);
    assert(65535int / 256 == 255) by (nonlinear_arith);
    vstd::arithmetic::div_mod::lemma_mod_division_less_than_divisor(l, 256);
    assert(buf[0] == (l / 256) as u8 && buf[1] == (l % 256) as u8);
    vstd::arithmetic::div_mod::lemma_fundamental_div_mod(l, 256);
    assert(buf[0] * 256 + buf[1] == l);
    assert(buf.len() == 2 + l + rest.len());
    assert(buf.subrange(2, 2 + l) =~= body);
    lemma_codec_round_trip(m);
}

/// A strict prefix of an encoded frame yields "need more data": nothing
/// is consumed until the whole frame has arrived.
pub proof fn lemma_decode_partial(m: HeartBeatModel, k: int)
    requires
        wf_msg(m),
        0 <= k < spec_encode(m).len(),
    ensures
        spec_decode(spec_encode(m).take(k)) == DecodedModel::NeedMore,
{
    let body = spec_encode_body(m);
    let l = body.len() as int;
    let p = spec_encode(m).take(k);
    if k < 2 {
    } else {
        vstd::arithmetic::div_mod::lemma_div_pos_is_pos(l, 256);
        vstd::arithmetic::div_mod::lemma_div_is_ordered(l, 65535, 256);
        assert(65535int / 256 == 255) by (nonlinear_arith);
        vstd::arithmetic::div_mod::lemma_mod_division_less_than_divisor(l, 256);
        vstd::arithmetic::div_mod::lemma_fundamental_div_mod(l, 256);
        assert(p[0] == (l / 256) as u8 && p[1] == (l % 256) as u8);
        assert(p[0] * 256 + p[1] == l);
        assert(p.len() == k < 2 + l);
    }
}

} // verus!
