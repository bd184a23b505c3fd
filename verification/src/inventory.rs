//! The peer registry: one monitor (record plus detector) per peer.
//!
//! The registry owns the map of peer id to monitor under single-writer
//! discipline: every mutation arrives as a message-like call on `&mut
//! self`, so concurrent callers interact with it only through whatever
//! queue the embedding chooses.

use crate::messages::{HeartBeat, HeartBeatModel, Monitor, PeerStatus, Status, StatusEvent};
use crate::peer::Peer;
use crate::phi::{
    model_wf, seeded, spec_heartbeat, spec_phi, spec_state, DetectorModel,
    PhiAccrualFailureDetector, PhiAccrualFailureDetectorBuilder, State, MAX_TIMESTAMP,
};
use vstd::pervasive::VecAdditionalExecFns;
use vstd::prelude::*;

verus! {

/// Abstract form of one monitored peer.
pub ghost struct MonitorModel {
    pub id: u128,
    pub name: Seq<char>,
    pub address: Seq<char>,
    pub detector: DetectorModel,
}

/// A monitored peer: its registration record paired with its own
/// suspicion detector.
#[derive(Debug)]
pub struct PeerMonitor {
    id: u128,
    name: String,
    address: String,
    status: PhiAccrualFailureDetector,
}

impl View for PeerMonitor {
    type V = MonitorModel;

    closed spec fn view(&self) -> MonitorModel {
        MonitorModel {
            id: self.id,
            name: self.name@,
            address: self.address@,
            detector: self.status@,
        }
    }
}

/// The monitor's detector is in range and seeded.
pub open spec fn monitor_wf(m: MonitorModel) -> bool {
    &&& model_wf(m.detector)
    &&& seeded(m.detector)
}

impl PeerMonitor {
    pub closed spec fn inv(self) -> bool {
        &&& self.status.inv()
        &&& monitor_wf(self@)
    }

    pub fn new(id: u128, name: String, address: String, status: PhiAccrualFailureDetector) -> (m:
        PeerMonitor)
        requires
            status.inv(),
            seeded(status@),
        ensures
            m.inv(),
            m@ == (MonitorModel { id, name: name@, address: address@, detector: status@ }),
    {
        proof {
            status.lemma_inv_model_wf();
        }
        PeerMonitor { id, name, address, status }
    }

    pub fn heartbeat(&mut self, now: u64)
        requires
            old(self).inv(),
            now <= MAX_TIMESTAMP,
        ensures
            final(self).inv(),
            final(self)@ == (MonitorModel {
                detector: spec_heartbeat(old(self)@.detector, now),
                ..old(self)@
            }),
    {
        self.status.heartbeat(now);
    }

    pub fn state(&self, now: u64) -> (st: State)
        requires
            self.inv(),
            now <= MAX_TIMESTAMP,
        ensures
            st == spec_state(self@.detector, now as int),
    {
        self.status.state(now)
    }

    pub fn last(&self) -> (t: u64)
        ensures
            t as int == self@.detector.latest,
    {
        self.status.last()
    }

    pub fn history(&self, num: usize) -> (out: Vec<u64>)
        ensures
            out@.len() == vstd::math::min(num as int, self@.detector.window.len() as int),
            forall|k: int|
                0 <= k < out@.len() ==> out@[k] == self@.detector.window[self@.detector.window.len()
                    - 1 - k],
    {
        self.status.history(num)
    }

    /// Renders this monitor at `now`: identity, the 20 most recent
    /// intervals, phi, the verdict, and the last heartbeat timestamp.
    pub fn status_at(&self, now: u64) -> (ps: PeerStatus)
        requires
            self.inv(),
            now <= MAX_TIMESTAMP,
        ensures
            status_matches(ps, self@, now as int),
    {
        let st = self.state(now);
        let phi = self.status.phi(now);
        PeerStatus {
            id: self.id,
            name: self.name.clone(),
            address: self.address.clone(),
            history: self.history(20),
            phi,
            state: st,
            last: self.last(),
        }
    }
}

/// `ps` is the faithful rendering of `m` at time `now`.
pub open spec fn status_matches(ps: PeerStatus, m: MonitorModel, now: int) -> bool {
    &&& ps.id == m.id
    &&& ps.name@ == m.name
    &&& ps.address@ == m.address
    &&& ps.history@.len() == vstd::math::min(20, m.detector.window.len() as int)
    &&& (forall|k: int|
        0 <= k < ps.history@.len() ==> ps.history@[k] == m.detector.window[m.detector.window.len()
            - 1 - k])
    &&& ps.phi == spec_phi(m.detector, now)
    &&& ps.state == spec_state(m.detector, now)
    &&& ps.last == m.detector.latest
}

/// Index of the first monitor with the given id, or -1.
pub open spec fn find_peer(s: Seq<MonitorModel>, id: u128) -> int
    decreases s.len(),
{
    if s.len() == 0 {
        -1
    } else if s[0].id == id {
        0
    } else {
        let r = find_peer(s.drop_first(), id);
        if r == -1 {
            -1
        } else {
            r + 1
        }
    }
}

/// No two monitors share an id.
pub open spec fn distinct_ids(s: Seq<MonitorModel>) -> bool {
    forall|i: int, j: int| 0 <= i < j < s.len() ==> s[i].id != s[j].id
}

pub proof fn lemma_find_peer_at(s: Seq<MonitorModel>, id: u128, i: int)
    requires
        0 <= i < s.len(),
        s[i].id == id,
        forall|j: int| 0 <= j < i ==> s[j].id != id,
    ensures
        find_peer(s, id) == i,
    decreases s.len(),
{
    if i > 0 {
        assert(forall|j: int|
            0 <= j < i - 1 ==> s.drop_first()[j] == s[j + 1] && s[j + 1].id != id);
        lemma_find_peer_at(s.drop_first(), id, i - 1);
    }
}

pub proof fn lemma_find_peer_absent(s: Seq<MonitorModel>, id: u128)
    requires
        forall|j: int| 0 <= j < s.len() ==> s[j].id != id,
    ensures
        find_peer(s, id) == -1,
    decreases s.len(),
{
    if s.len() > 0 {
        assert(forall|j: int| 0 <= j < s.drop_first().len() ==> s.drop_first()[j] == s[j + 1]);
        lemma_find_peer_absent(s.drop_first(), id);
    }
}

pub proof fn lemma_find_peer_props(s: Seq<MonitorModel>, id: u128)
    ensures
        find_peer(s, id) == -1 ==> (forall|j: int| 0 <= j < s.len() ==> s[j].id != id),
        find_peer(s, id) != -1 ==> 0 <= find_peer(s, id) < s.len() && s[find_peer(s, id)].id
            == id,
    decreases s.len(),
{
    if s.len() > 0 && s[0].id != id {
        lemma_find_peer_props(s.drop_first(), id);
        assert(forall|j: int| 0 <= j < s.drop_first().len() ==> s.drop_first()[j] == s[j + 1]);
        if find_peer(s, id) == -1 {
            assert forall|j: int| 0 <= j < s.len() implies s[j].id != id by {
                if j > 0 {
                    assert(s.drop_first()[j - 1] == s[j]);
                }
            }
        }
    }
}

/// The detector a fresh registration starts with: the configured knobs
/// and the two seeded intervals.
pub open spec fn fresh_detector(cfg: DetectorModel) -> DetectorModel {
    DetectorModel {
        latest: 0,
        window: seq![
            (cfg.first_heartbeat_estimate - cfg.first_heartbeat_estimate / 4) as u64,
            (cfg.first_heartbeat_estimate + cfg.first_heartbeat_estimate / 4) as u64,
        ],
        ..cfg
    }
}

/// Abstract state of the registry.
pub ghost struct RegistryModel {
    pub my_id: u128,
    pub peers: Seq<MonitorModel>,
    pub config: DetectorModel,
    pub subs: bool,
}

/// Registration: ignored for the node's own id; otherwise the monitor is
/// inserted, replacing in place any monitor with the same id, always with
/// a freshly seeded detector.
pub open spec fn spec_register(r: RegistryModel, id: u128, name: Seq<char>, address: Seq<char>)
    -> RegistryModel {
    if id == r.my_id {
        r
    } else {
        let m = MonitorModel { id, name, address, detector: fresh_detector(r.config) };
        let i = find_peer(r.peers, id);
        if i >= 0 {
            RegistryModel { peers: r.peers.update(i, m), ..r }
        } else {
            RegistryModel { peers: r.peers.push(m), ..r }
        }
    }
}

/// Unregistration: removes the monitor when present; idempotent.
pub open spec fn spec_unregister(r: RegistryModel, id: u128) -> RegistryModel {
    let i = find_peer(r.peers, id);
    if i >= 0 {
        RegistryModel { peers: r.peers.remove(i), ..r }
    } else {
        r
    }
}

/// A pong-derived heartbeat: feeds the peer's detector when the id is
/// known, and is dropped silently otherwise.
pub open spec fn spec_on_pong(r: RegistryModel, id: u128, ts: u64) -> RegistryModel {
    let i = find_peer(r.peers, id);
    if i >= 0 {
        RegistryModel {
            peers: r.peers.update(
                i,
                MonitorModel {
                    detector: spec_heartbeat(r.peers[i].detector, ts),
                    ..r.peers[i]
                },
            ),
            ..r
        }
    } else {
        r
    }
}

/// The registry.
pub struct InventoryActor {
    my_id: u128,
    peers: Vec<PeerMonitor>,
    fd: PhiAccrualFailureDetectorBuilder,
    subs: bool,
}

impl View for InventoryActor {
    type V = RegistryModel;

    closed spec fn view(&self) -> RegistryModel {
        RegistryModel {
            my_id: self.my_id,
            peers: self.peers@.map_values(|p: PeerMonitor| p@),
            config: self.fd@,
            subs: self.subs,
        }
    }
}

impl InventoryActor {
    pub open spec fn inv(self) -> bool {
        &&& self.wf_peers()
        &&& distinct_ids(self@.peers)
    }

    pub closed spec fn wf_peers(self) -> bool {
        &&& self.fd.inv()
        &&& forall|i: int| 0 <= i < self.peers@.len() ==> #[trigger] self.peers@[i].inv()
    }

    pub fn new(my_id: u128) -> (r: InventoryActor)
        ensures
            r.inv(),
            r@.my_id == my_id,
            r@.peers == Seq::<MonitorModel>::empty(),
            !r@.subs,
            r@.config.threshold == crate::phi::DEFAULT_THRESHOLD,
            r@.config.sample_size == crate::phi::DEFAULT_SAMPLE_SIZE,
            r@.config.min_std_deviation == crate::phi::DEFAULT_MIN_STD_DEVIATION,
            r@.config.acceptable_heartbeat_pause == crate::phi::DEFAULT_ACCEPTABLE_HEARTBEAT_PAUSE,
            r@.config.first_heartbeat_estimate == crate::phi::DEFAULT_FIRST_HEARTBEAT_ESTIMATE,
    {
        let r = InventoryActor {
            my_id,
            peers: Vec::new(),
            fd: PhiAccrualFailureDetectorBuilder::new(),
            subs: false,
        };
        proof {
            assert(r.peers@.map_values(|p: PeerMonitor| p@) =~= Seq::<MonitorModel>::empty());
        }
        r
    }

    /// Index of the monitor with this id, if any.
    fn find_index(&self, id: u128) -> (r: Option<usize>)
        requires
            self.inv(),
        ensures
            match r {
                Some(i) => find_peer(self@.peers, id) == i as int && i < self@.peers.len(),
                None => find_peer(self@.peers, id) == -1,
            },
    {
        let n = self.peers.len();
        let mut k: usize = 0;
        while k < n
            invariant
                n == self@.peers.len(),
                k <= n,
                self.wf_peers(),
                forall|j: int| 0 <= j < k ==> self@.peers[j].id != id,
            decreases n - k,
        {
            if self.peers[k].id == id {
                proof {
                    lemma_find_peer_at(self@.peers, id, k as int);
                }
                return Some(k);
            }
            k = k + 1;
        }
        proof {
            lemma_find_peer_absent(self@.peers, id);
        }
        None
    }

    /// Registers a peer: ignored (returning false) for the node's own id,
    /// otherwise inserts or replaces the monitor with a freshly seeded
    /// detector.
    pub fn register(&mut self, peer: Peer) -> (ok: bool)
        requires
            old(self).inv(),
        ensures
            final(self).inv(),
            final(self)@ == spec_register(old(self)@, peer.id, peer.name@, peer.address@),
            ok == (peer.id != old(self)@.my_id),
    {
        let pid = peer.id;
        let ghost pname = peer.name@;
        let ghost paddress = peer.address@;
        if peer.id == self.my_id {
            return false;
        }
        let d = self.fd.build();
        let monit = PeerMonitor::new(peer.id, peer.name, peer.address, d);
        let idx = self.find_index(pid);
        match idx {
            Some(i) => {
                self.peers.set(i, monit);
                proof {
                    assert(self@.peers =~= old(self)@.peers.update(i as int, monit@));
                    assert forall|j: int| 0 <= j < self.peers@.len()
                        implies #[trigger] self.peers@[j].inv() by {
                        if j != i as int {
                            assert(self.peers@[j] == old(self).peers@[j]);
                        }
                    }
                    lemma_register_distinct(old(self)@, pid, pname, paddress);
                }
            }
            None => {
                self.peers.push(monit);
                proof {
                    assert(self@.peers =~= old(self)@.peers.push(monit@));
                    assert forall|j: int| 0 <= j < self.peers@.len()
                        implies #[trigger] self.peers@[j].inv() by {
                        if j < self.peers@.len() - 1 {
                            assert(self.peers@[j] == old(self).peers@[j]);
                        }
                    }
                    lemma_register_distinct(old(self)@, pid, pname, paddress);
                }
            }
        }
        true
    }

    /// Removes a peer's monitor; removing an absent id changes nothing.
    pub fn unregister(&mut self, id: u128)
        requires
            old(self).inv(),
        ensures
            final(self).inv(),
            final(self)@ == spec_unregister(old(self)@, id),
    {
        let idx = self.find_index(id);
        if let Some(i) = idx {
            self.peers.remove(i);
            proof {
                assert(self@.peers =~= old(self)@.peers.remove(i as int));
            }
        }
    }

    /// Feeds a pong-derived heartbeat to the peer's detector; an unknown
    /// id is dropped silently (the peer may have been unregistered).
    pub fn on_pong(&mut self, id: u128, timestamp: u64)
        requires
            old(self).inv(),
            timestamp <= MAX_TIMESTAMP,
        ensures
            final(self).inv(),
            final(self)@ == spec_on_pong(old(self)@, id, timestamp),
    {
        let idx = self.find_index(id);
        if let Some(i) = idx {
            let mut m = self.peers.remove(i);
            m.heartbeat(timestamp);
            self.peers.insert(i, m);
            proof {
                let ghost target = MonitorModel {
                    detector: spec_heartbeat(old(self)@.peers[i as int].detector, timestamp),
                    ..old(self)@.peers[i as int]
                };
                assert(self@.peers =~= old(self)@.peers.update(i as int, target));
            }
        }
    }

    /// Registration events: `Register` inserts or replaces, `UnRegister`
    /// removes.  Returns false only for an ignored self-registration.
    pub fn handle_monitor(&mut self, msg: Monitor) -> (ok: bool)
        requires
            old(self).inv(),
        ensures
            final(self).inv(),
            match msg {
                Monitor::Register(p) => final(self)@ == spec_register(
                    old(self)@,
                    p.id,
                    p.name@,
                    p.address@,
                ) && ok == (p.id != old(self)@.my_id),
                Monitor::UnRegister(id) => final(self)@ == spec_unregister(old(self)@, id) && ok,
            },
    {
        match msg {
            Monitor::Register(peer) => self.register(peer),
            Monitor::UnRegister(id) => {
                self.unregister(id);
                true
            }
        }
    }

    /// Heartbeat events: only a `Pong` acts, feeding the peer's detector;
    /// everything else is ignored.
    pub fn handle_heartbeat(&mut self, msg: &HeartBeat)
        requires
            old(self).inv(),
            msg@ matches HeartBeatModel::Pong { id, ts } ==> ts <= MAX_TIMESTAMP,
        ensures
            final(self).inv(),
            final(self)@ == match msg@ {
                HeartBeatModel::Pong { id, ts } => spec_on_pong(old(self)@, id, ts),
                _ => old(self)@,
            },
    {
        match msg {
            HeartBeat::Pong(id, ts) => self.on_pong(*id, *ts),
            _ => {}
        }
    }

    /// Subscription events: `Subscribe` turns the periodic snapshot
    /// broadcast on, `UnSubscribe` turns it off.
    pub fn handle_status_event(&mut self, ev: StatusEvent)
        requires
            old(self).inv(),
        ensures
            final(self).inv(),
            final(self)@ == (RegistryModel { subs: ev == StatusEvent::Subscribe, ..old(self)@ }),
    {
        self.subs = ev == StatusEvent::Subscribe;
    }

    /// Renders a `PeerStatus` for every registered monitor at time `now`.
    pub fn get_status(&self, now: u64) -> (st: Status)
        requires
            self.inv(),
            now <= MAX_TIMESTAMP,
        ensures
            st.0@.len() == self@.peers.len(),
            forall|i: int|
                0 <= i < st.0@.len() ==> #[trigger] status_matches(st.0@[i], self@.peers[i], now as int),
    {
        let n = self.peers.len();
        let mut out: Vec<PeerStatus> = Vec::new();
        let mut k: usize = 0;
        while k < n
            invariant
                n == self@.peers.len(),
                k <= n,
                self.wf_peers(),
                now <= MAX_TIMESTAMP,
                out@.len() == k,
                forall|i: int|
                    0 <= i < k ==> #[trigger] status_matches(out@[i], self@.peers[i], now as int),
            decreases n - k,
        {
            out.push(self.peers[k].status_at(now));
            k = k + 1;
        }
        Status(out)
    }

    /// The periodic broadcast decision: a snapshot is produced only while
    /// at least one subscriber exists; with none, no snapshot work
    /// happens at all.
    pub fn tick(&self, now: u64) -> (st: Option<Status>)
        requires
            self.inv(),
            now <= MAX_TIMESTAMP,
        ensures
            st is Some <==> self@.subs,
            match st {
                Some(s) => s.0@.len() == self@.peers.len() && forall|i: int|
                    0 <= i < s.0@.len() ==> #[trigger] status_matches(
                        s.0@[i],
                        self@.peers[i],
                        now as int,
                    ),
                None => true,
            },
    {
        if self.subs {
            Some(self.get_status(now))
        } else {
            None
        }
    }
}

/// Registering the node's own id changes nothing: no monitor entry is
/// ever created for it.
pub proof fn lemma_register_self_ignored(
    r: RegistryModel,
    name: Seq<char>,
    address: Seq<char>,
)
    ensures
        spec_register(r, r.my_id, name, address) == r,
{
}

/// Registering preserves distinctness of ids.
pub proof fn lemma_register_distinct(
    r: RegistryModel,
    id: u128,
    name: Seq<char>,
    address: Seq<char>,
)
    requires
        distinct_ids(r.peers),
    ensures
        distinct_ids(spec_register(r, id, name, address).peers),
{
    if id != r.my_id {
        let i = find_peer(r.peers, id);
        lemma_find_peer_props(r.peers, id);
        let s2 = spec_register(r, id, name, address).peers;
        if i >= 0 {
            assert forall|a: int, b: int| 0 <= a < b < s2.len() implies s2[a].id != s2[b].id by {
                assert(r.peers[a].id == s2[a].id || a == i);
                assert(r.peers[b].id == s2[b].id || b == i);
            }
        } else {
            assert forall|a: int, b: int| 0 <= a < b < s2.len() implies s2[a].id != s2[b].id by {
                if b == s2.len() - 1 {
                    assert(s2[a] == r.peers[a]);
                    assert(s2[b].id == id);
                } else {
                    assert(s2[a] == r.peers[a]);
                    assert(s2[b] == r.peers[b]);
                }
            }
        }
    }
}

/// Re-registering the same id, whatever the metadata of either call,
/// leaves exactly one monitor for that id: it carries the second call's
/// metadata and a freshly seeded detector (a two-interval window, no
/// heartbeat recorded), and every other monitor is untouched.
pub proof fn lemma_idempotent_reregister(
    r: RegistryModel,
    id: u128,
    name1: Seq<char>,
    address1: Seq<char>,
    name2: Seq<char>,
    address2: Seq<char>,
)
    requires
        distinct_ids(r.peers),
        id != r.my_id,
    ensures
        ({
            let r2 = spec_register(spec_register(r, id, name1, address1), id, name2, address2);
            let i = find_peer(r2.peers, id);
            &&& 0 <= i < r2.peers.len()
            &&& r2.peers[i] == (MonitorModel {
                id,
                name: name2,
                address: address2,
                detector: fresh_detector(r.config),
            })
            &&& r2.peers[i].detector.window.len() == 2
            &&& r2.peers[i].detector.latest == 0
            &&& forall|j: int| 0 <= j < r2.peers.len() && j != i ==> r2.peers[j].id != id
            &&& forall|j: int|
                0 <= j < r2.peers.len() && j != i ==> 0 <= j < r.peers.len() && r2.peers[j]
                    == r.peers[j]
            &&& r2.peers.len() == if find_peer(r.peers, id) >= 0 {
                r.peers.len() as int
            } else {
                r.peers.len() + 1int
            }
        }),
{
    let r1 = spec_register(r, id, name1, address1);
    let r2 = spec_register(r1, id, name2, address2);
    lemma_register_distinct(r, id, name1, address1);
    let i0 = find_peer(r.peers, id);
    lemma_find_peer_props(r.peers, id);
    let m1 = MonitorModel { id, name: name1, address: address1, detector: fresh_detector(r.config) };
    let m2 = MonitorModel { id, name: name2, address: address2, detector: fresh_detector(r.config) };
    if i0 >= 0 {
        assert(r1.peers == r.peers.update(i0, m1));
        assert(forall|j: int| 0 <= j < i0 ==> r1.peers[j].id != id);
        lemma_find_peer_at(r1.peers, id, i0);
        assert(r2.peers == r1.peers.update(i0, m2));
        assert(forall|j: int| 0 <= j < i0 ==> r2.peers[j].id != id);
        lemma_find_peer_at(r2.peers, id, i0);
    } else {
        let n = r.peers.len() as int;
        assert(r1.peers == r.peers.push(m1));
        assert(r1.peers[n].id == id);
        assert(forall|j: int| 0 <= j < n ==> r1.peers[j] == r.peers[j] && r1.peers[j].id != id);
        lemma_find_peer_at(r1.peers, id, n);
        assert(r2.peers == r1.peers.update(n, m2));
        assert(forall|j: int| 0 <= j < n ==> r2.peers[j] == r.peers[j] && r2.peers[j].id != id);
        lemma_find_peer_at(r2.peers, id, n);
    }
}

} // verus!
