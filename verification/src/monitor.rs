//! The status fan-out: tracks connected observer sessions and decides
//! when the registry should start or stop the periodic snapshot
//! broadcast.
//!
//! Delivery itself lives in the embedding; this module owns the set of
//! session ids and answers, for every connect and disconnect, whether a
//! subscription event must be sent to the registry.

use crate::transport::{find_id, insert_id, lemma_find_id_absent, lemma_find_id_at, lemma_find_id_props, remove_id};
use vstd::prelude::*;

verus! {

/// The fan-out's state: ids of the connected observer sessions.
#[derive(Debug)]
pub struct MonitorActor {
    sessions: Vec<u128>,
}

impl MonitorActor {
    pub closed spec fn spec_sessions(self) -> Seq<u128> {
        self.sessions@
    }

    pub closed spec fn inv(self) -> bool {
        forall|i: int, j: int|
            0 <= i < j < self.sessions@.len() ==> self.sessions@[i] != self.sessions@[j]
    }

    pub fn new() -> (m: MonitorActor)
        ensures
            m.inv(),
            m.spec_sessions() == Seq::<u128>::empty(),
    {
        MonitorActor { sessions: Vec::new() }
    }

    fn find_index(&self, id: u128) -> (r: Option<usize>)
        ensures
            match r {
                Some(i) => find_id(self.sessions@, id) == i as int && i < self.sessions@.len(),
                None => find_id(self.sessions@, id) == -1,
            },
    {
        let n = self.sessions.len();
        let mut k: usize = 0;
        while k < n
            invariant
                k <= n,
                n == self.sessions@.len(),
                forall|j: int| 0 <= j < k ==> self.sessions@[j] != id,
            decreases n - k,
        {
            if self.sessions[k] == id {
                proof {
                    lemma_find_id_at(self.sessions@, id, k as int);
                }
                return Some(k);
            }
            k = k + 1;
        }
        proof {
            lemma_find_id_absent(self.sessions@, id);
        }
        None
    }

    /// A session joins.  Returns true when the registry must be told to
    /// subscribe: exactly when this is the first session.
    pub fn connect(&mut self, session: u128) -> (subscribe: bool)
        requires
            old(self).inv(),
        ensures
            final(self).inv(),
            final(self).spec_sessions() == insert_id(old(self).spec_sessions(), session),
            subscribe == (old(self).spec_sessions().len() == 0),
    {
        let first = self.sessions.len() == 0;
        let idx = self.find_index(session);
        if idx.is_none() {
            proof {
                lemma_find_id_props(self.sessions@, session);
            }
            self.sessions.push(session);
            proof {
                assert forall|i: int, j: int|
                    0 <= i < j < self.sessions@.len() implies self.sessions@[i]
                    != self.sessions@[j] by {
                    if j == self.sessions@.len() - 1 {
                        assert(self.sessions@[i] == old(self).sessions@[i]);
                    }
                }
            }
        }
        first
    }

    /// A session leaves; absent ids are tolerated.  Returns true when
    /// the registry must be told to unsubscribe: exactly when no
    /// session remains.
    pub fn disconnect(&mut self, session: u128) -> (unsubscribe: bool)
        requires
            old(self).inv(),
        ensures
            final(self).inv(),
            final(self).spec_sessions() == remove_id(old(self).spec_sessions(), session),
            unsubscribe == (final(self).spec_sessions().len() == 0),
    {
        let idx = self.find_index(session);
        if let Some(i) = idx {
            self.sessions.remove(i);
            proof {
                assert(self.sessions@ =~= old(self).sessions@.remove(i as int));
                assert forall|a: int, b: int|
                    0 <= a < b < self.sessions@.len() implies self.sessions@[a]
                    != self.sessions@[b] by {
                    let s0 = old(self).sessions@;
                    let a0 = if a < i as int {
                        a
                    } else {
                        a + 1
                    };
                    let b0 = if b < i as int {
                        b
                    } else {
                        b + 1
                    };
                    assert(self.sessions@[a] == s0[a0]);
                    assert(self.sessions@[b] == s0[b0]);
                }
            }
        }
        self.sessions.len() == 0
    }

    /// The sessions a snapshot must be pushed to.
    pub fn recipients(&self) -> (out: Vec<u128>)
        ensures
            out@ == self.spec_sessions(),
    {
        let n = self.sessions.len();
        let mut out: Vec<u128> = Vec::new();
        let mut k: usize = 0;
        while k < n
            invariant
                k <= n,
                n == self.sessions@.len(),
                out@.len() == k,
                forall|j: int| 0 <= j < k ==> out@[j] == self.sessions@[j],
            decreases n - k,
        {
            out.push(self.sessions[k]);
            k = k + 1;
        }
        proof {
            assert(out@ =~= self.sessions@);
        }
        out
    }
}

} // verus!
