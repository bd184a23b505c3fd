//! Decision logic of the heartbeat transport.
//!
//! The transport owns the UDP socket and one recurring ping timer per
//! monitored peer.  The socket, the timers, and the registry live in the
//! embedding; this module decides, for every event, what must be sent,
//! forwarded, started, or cancelled, and tracks which peers have an
//! active pinger.

use crate::messages::{HeartBeat, HeartBeatModel, Monitor};
use vstd::prelude::*;

verus! {

/// Index of `id` in the pinger list, or -1.
pub open spec fn find_id(s: Seq<u128>, id: u128) -> int
    decreases s.len(),
{
    if s.len() == 0 {
        -1
    } else if s[0] == id {
        0
    } else {
        let r = find_id(s.drop_first(), id);
        if r == -1 {
            -1
        } else {
            r + 1
        }
    }
}

pub proof fn lemma_find_id_at(s: Seq<u128>, id: u128, i: int)
    requires
        0 <= i < s.len(),
        s[i] == id,
        forall|j: int| 0 <= j < i ==> s[j] != id,
    ensures
        find_id(s, id) == i,
    decreases s.len(),
{
    if i > 0 {
        assert(forall|j: int| 0 <= j < i - 1 ==> s.drop_first()[j] == s[j + 1] && s[j + 1] != id);
        lemma_find_id_at(s.drop_first(), id, i - 1);
    }
}

pub proof fn lemma_find_id_absent(s: Seq<u128>, id: u128)
    requires
        forall|j: int| 0 <= j < s.len() ==> s[j] != id,
    ensures
        find_id(s, id) == -1,
    decreases s.len(),
{
    if s.len() > 0 {
        assert(forall|j: int| 0 <= j < s.drop_first().len() ==> s.drop_first()[j] == s[j + 1]);
        lemma_find_id_absent(s.drop_first(), id);
    }
}

pub proof fn lemma_find_id_props(s: Seq<u128>, id: u128)
    ensures
        find_id(s, id) == -1 ==> (forall|j: int| 0 <= j < s.len() ==> s[j] != id),
        find_id(s, id) != -1 ==> 0 <= find_id(s, id) < s.len() && s[find_id(s, id)] == id,
    decreases s.len(),
{
    if s.len() > 0 && s[0] != id {
        lemma_find_id_props(s.drop_first(), id);
        assert(forall|j: int| 0 <= j < s.drop_first().len() ==> s.drop_first()[j] == s[j + 1]);
        if find_id(s, id) == -1 {
            assert forall|j: int| 0 <= j < s.len() implies s[j] != id by {
                if j > 0 {
                    assert(s.drop_first()[j - 1] == s[j]);
                }
            }
        }
    }
}

/// The pinger list after a registration: unchanged when the id is
/// already tracked, appended otherwise.
pub open spec fn insert_id(s: Seq<u128>, id: u128) -> Seq<u128> {
    if find_id(s, id) >= 0 {
        s
    } else {
        s.push(id)
    }
}

/// The pinger list after an unregistration.
pub open spec fn remove_id(s: Seq<u128>, id: u128) -> Seq<u128> {
    if find_id(s, id) >= 0 {
        s.remove(find_id(s, id))
    } else {
        s
    }
}

/// What the embedding must do after a registration event.
#[derive(Debug)]
pub enum MonitorAction {
    /// Self-registration: ignored entirely — no forwarding, no timer.
    Ignored,
    /// Forward the registration to the registry and start a recurring
    /// ping timer towards this endpoint.
    StartPinging(u128, String),
    /// Forward the unregistration to the registry; the flag says
    /// whether a running ping timer must be cancelled.
    StopPinging(u128, bool),
}

/// The transport's decision state: this node's id and the peers with an
/// active ping timer.
#[derive(Debug)]
pub struct UdpActor {
    me: u128,
    monitored: Vec<u128>,
}

impl UdpActor {
    pub closed spec fn spec_me(self) -> u128 {
        self.me
    }

    pub closed spec fn spec_monitored(self) -> Seq<u128> {
        self.monitored@
    }

    pub closed spec fn inv(self) -> bool {
        forall|i: int, j: int|
            0 <= i < j < self.monitored@.len() ==> self.monitored@[i] != self.monitored@[j]
    }

    pub fn new(me: u128) -> (t: UdpActor)
        ensures
            t.inv(),
            t.spec_me() == me,
            t.spec_monitored() == Seq::<u128>::empty(),
    {
        UdpActor { me, monitored: Vec::new() }
    }

    fn find_index(&self, id: u128) -> (r: Option<usize>)
        ensures
            match r {
                Some(i) => find_id(self.monitored@, id) == i as int && i < self.monitored@.len(),
                None => find_id(self.monitored@, id) == -1,
            },
    {
        let n = self.monitored.len();
        let mut k: usize = 0;
        while k < n
            invariant
                k <= n,
                n == self.monitored@.len(),
                forall|j: int| 0 <= j < k ==> self.monitored@[j] != id,
            decreases n - k,
        {
            if self.monitored[k] == id {
                proof {
                    lemma_find_id_at(self.monitored@, id, k as int);
                }
                return Some(k);
            }
            k = k + 1;
        }
        proof {
            lemma_find_id_absent(self.monitored@, id);
        }
        None
    }

    /// An inbound datagram: a ping is answered immediately with a pong
    /// carrying this node's id and a fresh timestamp (an acknowledgment,
    /// not an echo); a pong is forwarded to the registry with the local
    /// receipt time in place of the remote clock; anything else is
    /// dropped without disturbing the transport.
    pub fn on_packet(&self, msg: &HeartBeat, now: u64) -> (r: (Option<HeartBeat>, Option<
        HeartBeat,
    >))
        ensures
            match msg@ {
                HeartBeatModel::Ping { .. } => r.0 matches Some(p) && p@
                    == (HeartBeatModel::Pong { id: self.spec_me(), ts: now }) && r.1 is None,
                HeartBeatModel::Pong { id, .. } => r.0 is None && (r.1 matches Some(f) && f@
                    == (HeartBeatModel::Pong { id, ts: now })),
                _ => r.0 is None && r.1 is None,
            },
    {
        match msg {
            HeartBeat::Ping(_, _) => (Some(HeartBeat::Pong(self.me, now)), None),
            HeartBeat::Pong(id, _) => (None, Some(HeartBeat::Pong(*id, now))),
            _ => (None, None),
        }
    }

    /// The local self-command: a due ping becomes a ping datagram for
    /// the stored endpoint; nothing else produces traffic.
    pub fn on_command(&self, msg: HeartBeat) -> (r: Option<(HeartBeat, Vec<u8>)>)
        ensures
            match msg@ {
                HeartBeatModel::DoPing { id, ts, addr } => r matches Some(p) && p.0@
                    == (HeartBeatModel::Ping { id, ts }) && p.1@ == addr,
                _ => r is None,
            },
    {
        match msg {
            HeartBeat::DoPing(id, ts, addr) => Some((HeartBeat::Ping(id, ts), addr)),
            _ => None,
        }
    }

    /// A registration event.  Registering this node's own id is ignored
    /// entirely: nothing is forwarded and no ping timer starts.  Any
    /// other registration is forwarded and gains a recurring pinger;
    /// an unregistration is forwarded and cancels the pinger when one
    /// runs.
    pub fn handle_monitor(&mut self, msg: Monitor) -> (act: MonitorAction)
        requires
            old(self).inv(),
        ensures
            final(self).inv(),
            final(self).spec_me() == old(self).spec_me(),
            match msg {
                Monitor::Register(p) => {
                    if p.id == old(self).spec_me() {
                        act is Ignored && final(self).spec_monitored() == old(
                            self,
                        ).spec_monitored()
                    } else {
                        final(self).spec_monitored() == insert_id(
                            old(self).spec_monitored(),
                            p.id,
                        ) && (act matches MonitorAction::StartPinging(id, a) && id == p.id && a@
                            == p.address@)
                    }
                },
                Monitor::UnRegister(id) => final(self).spec_monitored() == remove_id(
                    old(self).spec_monitored(),
                    id,
                ) && (act matches MonitorAction::StopPinging(i, had) && i == id && had == (
                find_id(old(self).spec_monitored(), id) >= 0)),
            },
    {
        match msg {
            Monitor::Register(peer) => {
                if peer.id == self.me {
                    return MonitorAction::Ignored;
                }
                let idx = self.find_index(peer.id);
                if idx.is_none() {
                    proof {
                        lemma_find_id_props(self.monitored@, peer.id);
                    }
                    self.monitored.push(peer.id);
                    proof {
                        assert forall|i: int, j: int|
                            0 <= i < j < self.monitored@.len() implies self.monitored@[i]
                            != self.monitored@[j] by {
                            if j == self.monitored@.len() - 1 {
                                assert(self.monitored@[i] == old(self).monitored@[i]);
                            }
                        }
                    }
                }
                MonitorAction::StartPinging(peer.id, peer.address)
            }
            Monitor::UnRegister(id) => {
                let idx = self.find_index(id);
                match idx {
                    Some(i) => {
                        self.monitored.remove(i);
                        proof {
                            assert(self.monitored@ =~= old(self).monitored@.remove(i as int));
                            assert forall|a: int, b: int|
                                0 <= a < b < self.monitored@.len() implies self.monitored@[a]
                                != self.monitored@[b] by {
                                let s0 = old(self).monitored@;
                                let a0 = if a < i as int {
                                    a
                                } else {
                                    a + 1
                                };
                                let b0 = if b < i as int {
                                    b
                                } else {
                                    b + 1
                                };
                                assert(self.monitored@[a] == s0[a0]);
                                assert(self.monitored@[b] == s0[b0]);
                            }
                        }
                        MonitorAction::StopPinging(id, true)
                    }
                    None => MonitorAction::StopPinging(id, false),
                }
            }
        }
    }
}

} // verus!
