//! The registry of peers, live sessions and our own listen addresses.

use vstd::prelude::*;

use crate::addr::{Multiaddr, MultiaddrView, with_id};
use crate::peer::{Connectedness, Peer, PeerId};

verus! {

/// Who opened a connection.
#[derive(Debug, Clone, Copy, PartialEq, Eq, Structural)]
pub enum SessionType {
    Inbound,
    Outbound,
}

/// One live connection.
#[derive(Debug, Clone)]
pub struct Session {
    pub sid: u64,
    pub peer: PeerId,
    pub addr: Multiaddr,
    pub ty: SessionType,
    pub blocked: bool,
}

impl Session {
    pub fn new(sid: u64, peer: PeerId, addr: Multiaddr, ty: SessionType) -> (r: Session)
        ensures
            r.sid == sid,
            r.peer@ == peer@,
            r.addr@ == addr@,
            r.ty == ty,
            !r.blocked,
    {
        Session { sid, peer, addr, ty, blocked: false }
    }

    pub fn is_blocked(&self) -> (r: bool)
        ensures
            r == self.blocked,
    {
        self.blocked
    }
}

pub open spec fn has_peer(peers: Seq<Peer>, id: Seq<u8>) -> bool {
    exists|i: int| 0 <= i < peers.len() && (#[trigger] peers[i]).id@ == id
}

pub open spec fn has_session_of(sessions: Seq<Session>, id: Seq<u8>) -> bool {
    exists|j: int| 0 <= j < sessions.len() && (#[trigger] sessions[j]).peer@ == id
}

pub open spec fn has_sid(sessions: Seq<Session>, sid: u64) -> bool {
    exists|j: int| 0 <= j < sessions.len() && (#[trigger] sessions[j]).sid == sid
}

pub open spec fn count_type(sessions: Seq<Session>, ty: SessionType) -> nat
    decreases sessions.len(),
{
    if sessions.len() == 0 {
        0
    } else {
        count_type(sessions.drop_last(), ty) + if sessions.last().ty == ty { 1nat } else { 0nat }
    }
}

/// Peers, sessions and listen addresses, with the links between them.
pub struct Registry {
    pub our_id: PeerId,
    pub peers: Vec<Peer>,
    pub sessions: Vec<Session>,
    pub listen: Vec<Multiaddr>,
}

/// Peer and session records agree, as `Registry::wf` states.
pub open spec fn links_hold(peers: Seq<Peer>, sessions: Seq<Session>) -> bool {
    // every peer record is well formed, so its addresses end in its id
    &&& forall|i: int| 0 <= i < peers.len() ==> (#[trigger] peers[i]).wf()
    // one record per id
    &&& forall|i: int, k: int|
        0 <= i < peers.len() && 0 <= k < peers.len() && i != k ==> (#[trigger] peers[i]).id@
            != (#[trigger] peers[k]).id@
    // no two sessions share an id
    &&& forall|j: int, k: int|
        0 <= j < sessions.len() && 0 <= k < sessions.len() && j != k ==> (#[trigger] sessions[j]).sid
            != (#[trigger] sessions[k]).sid
    // one session per peer
    &&& forall|j: int, k: int|
        0 <= j < sessions.len() && 0 <= k < sessions.len() && j != k ==> (#[trigger] sessions[j]).peer@
            != (#[trigger] sessions[k]).peer@
    // a session belongs to a known peer, never has id 0, and that peer holds its id
    &&& forall|j: int| 0 <= j < sessions.len() ==> has_peer(peers, (#[trigger] sessions[j]).peer@)
    &&& forall|j: int| 0 <= j < sessions.len() ==> (#[trigger] sessions[j]).sid != 0
    &&& forall|i: int, j: int|
        0 <= i < peers.len() && 0 <= j < sessions.len() && (#[trigger] sessions[j]).peer@ == (#[trigger] peers[i]).id@
            ==> peers[i].session_id == sessions[j].sid
    // a peer is connected exactly when a session references it
    &&& forall|i: int|
        0 <= i < peers.len() ==> ((#[trigger] peers[i]).connectedness == Connectedness::Connected
            <==> has_session_of(sessions, peers[i].id@))
}

impl Registry {
    /// The registry's invariant: records are linked as `links_hold` states, and
    /// listen addresses end in our id.
    pub open spec fn wf(&self) -> bool {
        &&& links_hold(self.peers@, self.sessions@)
        &&& forall|i: int| 0 <= i < self.listen@.len() ==> (#[trigger] self.listen@[i])@.2 == Some(self.our_id@)
    }

    pub fn new(our_id: PeerId) -> (r: Registry)
        ensures
            r.wf(),
            r.our_id@ == our_id@,
            r.peers@.len() == 0,
            r.sessions@.len() == 0,
            r.listen@.len() == 0,
    {
        Registry { our_id, peers: Vec::new(), sessions: Vec::new(), listen: Vec::new() }
    }

    /// Index of the peer with `id`.
    pub fn find_peer(&self, id: &PeerId) -> (r: Option<usize>)
        ensures
            match r {
                Some(i) => i < self.peers@.len() && self.peers@[i as int].id@ == id@,
                None => !has_peer(self.peers@, id@),
            },
    {
        let mut i: usize = 0;
        while i < self.peers.len()
            invariant
                i <= self.peers@.len(),
                forall|k: int| 0 <= k < i ==> (#[trigger] self.peers@[k]).id@ != id@,
            decreases self.peers@.len() - i,
        {
            if self.peers[i].id.same(id) {
                return Some(i);
            }
            i = i + 1;
        }
        None
    }

    pub fn contains(&self, id: &PeerId) -> (r: bool)
        ensures
            r == has_peer(self.peers@, id@),
    {
        self.find_peer(id).is_some()
    }

    pub fn peer(&self, id: &PeerId) -> (r: Option<&Peer>)
        ensures
            match r {
                Some(p) => p.id@ == id@ && self.peers@.contains(*p),
                None => !has_peer(self.peers@, id@),
            },
    {
        match self.find_peer(id) {
            Some(i) => Some(&self.peers[i]),
            None => None,
        }
    }

    /// Index of the session with id `sid`.
    pub fn find_session(&self, sid: u64) -> (r: Option<usize>)
        ensures
            match r {
                Some(j) => j < self.sessions@.len() && self.sessions@[j as int].sid == sid,
                None => !has_sid(self.sessions@, sid),
            },
    {
        let mut j: usize = 0;
        while j < self.sessions.len()
            invariant
                j <= self.sessions@.len(),
                forall|k: int| 0 <= k < j ==> (#[trigger] self.sessions@[k]).sid != sid,
            decreases self.sessions@.len() - j,
        {
            if self.sessions[j].sid == sid {
                return Some(j);
            }
            j = j + 1;
        }
        None
    }

    /// Index of the session that peer `id` holds.
    pub fn find_session_of(&self, id: &PeerId) -> (r: Option<usize>)
        ensures
            match r {
                Some(j) => j < self.sessions@.len() && self.sessions@[j as int].peer@ == id@,
                None => !has_session_of(self.sessions@, id@),
            },
    {
        let mut j: usize = 0;
        while j < self.sessions.len()
            invariant
                j <= self.sessions@.len(),
                forall|k: int| 0 <= k < j ==> (#[trigger] self.sessions@[k]).peer@ != id@,
            decreases self.sessions@.len() - j,
        {
            if self.sessions[j].peer.same(id) {
                return Some(j);
            }
            j = j + 1;
        }
        None
    }

    pub fn session(&self, sid: u64) -> (r: Option<&Session>)
        ensures
            match r {
                Some(s) => s.sid == sid && self.sessions@.contains(*s),
                None => !has_sid(self.sessions@, sid),
            },
    {
        match self.find_session(sid) {
            Some(j) => Some(&self.sessions[j]),
            None => None,
        }
    }

    /// Number of live sessions.
    pub fn connected(&self) -> (r: usize)
        ensures
            r == self.sessions@.len(),
    {
        self.sessions.len()
    }

    /// Number of live sessions of one direction.
    pub fn count_sessions(&self, ty: SessionType) -> (r: usize)
        ensures
            r == count_type(self.sessions@, ty),
    {
        let mut c: usize = 0;
        let mut j: usize = 0;
        while j < self.sessions.len()
            invariant
                j <= self.sessions@.len(),
                c == count_type(self.sessions@.subrange(0, j as int), ty),
                c <= j,
            decreases self.sessions@.len() - j,
        {
            assert(self.sessions@.subrange(0, j + 1).drop_last() =~= self.sessions@.subrange(0, j as int));
            if self.sessions[j].ty == ty {
                c = c + 1;
            }
            j = j + 1;
        }
        assert(self.sessions@.subrange(0, self.sessions@.len() as int) =~= self.sessions@);
        c
    }

    pub fn inbound_count(&self) -> (r: usize)
        ensures
            r == count_type(self.sessions@, SessionType::Inbound),
    {
        self.count_sessions(SessionType::Inbound)
    }

    pub fn outbound_count(&self) -> (r: usize)
        ensures
            r == count_type(self.sessions@, SessionType::Outbound),
    {
        self.count_sessions(SessionType::Outbound)
    }

    /// Adds a peer that is not connected; a known id keeps its record.
    pub fn add_peer(&mut self, peer: Peer)
        requires
            old(self).wf(),
            peer.wf(),
            peer.connectedness != Connectedness::Connected,
        ensures
            final(self).wf(),
            final(self).sessions@ == old(self).sessions@,
            final(self).listen@ == old(self).listen@,
            final(self).our_id == old(self).our_id,
            has_peer(old(self).peers@, peer.id@) ==> final(self).peers@ == old(self).peers@,
            !has_peer(old(self).peers@, peer.id@) ==> final(self).peers@ == old(self).peers@.push(peer),
    {
        match self.find_peer(&peer.id) {
            Some(_) => {},
            None => {
                let ghost before = self.peers@;
                let ghost p = peer;
                self.peers.push(peer);
                proof {
                    let after = self.peers@;
                    let sessions = self.sessions@;
                    assert(after == before.push(p));
                    assert forall|j: int| 0 <= j < sessions.len() implies has_peer(after, (#[trigger] sessions[j]).peer@) by {
                        let i = choose|i: int| 0 <= i < before.len() && (#[trigger] before[i]).id@ == sessions[j].peer@;
                        assert(after[i] == before[i]);
                    }
                    assert forall|i: int, k: int|
                        0 <= i < after.len() && 0 <= k < after.len() && i != k implies (#[trigger] after[i]).id@
                        != (#[trigger] after[k]).id@ by {
                        if i < before.len() && k < before.len() {
                            assert(after[i] == before[i] && after[k] == before[k]);
                        } else if i < before.len() {
                            assert(after[i] == before[i]);
                        } else {
                            assert(after[k] == before[k]);
                        }
                    }
                    assert forall|i: int| 0 <= i < after.len() implies ((#[trigger] after[i]).connectedness
                        == Connectedness::Connected <==> has_session_of(sessions, after[i].id@)) by {
                        if i < before.len() {
                            assert(after[i] == before[i]);
                        } else {
                            if has_session_of(sessions, p.id@) {
                                let j = choose|j: int| 0 <= j < sessions.len() && (#[trigger] sessions[j]).peer@ == p.id@;
                                assert(has_peer(before, sessions[j].peer@));
                            }
                        }
                    }
                    assert forall|i: int| 0 <= i < after.len() implies (#[trigger] after[i]).wf() by {
                        if i < before.len() {
                            assert(after[i] == before[i]);
                        }
                    }
                    assert forall|i: int, j: int|
                        0 <= i < after.len() && 0 <= j < sessions.len() && (#[trigger] sessions[j]).peer@
                            == (#[trigger] after[i]).id@ implies after[i].session_id == sessions[j].sid by {
                        if i < before.len() {
                            assert(after[i] == before[i]);
                        } else {
                            assert(has_peer(before, sessions[j].peer@));
                        }
                    }
                }
            },
        }
    }
}

impl Registry {
    /// Opens session `sid` for the peer at `idx`, which holds none.
    pub fn open_session(&mut self, idx: usize, sid: u64, addr: Multiaddr, ty: SessionType, now: u64)
        requires
            old(self).wf(),
            idx < old(self).peers@.len(),
            old(self).peers@[idx as int].connectedness != Connectedness::Connected,
            sid != 0,
            !has_sid(old(self).sessions@, sid),
        ensures
            final(self).wf(),
            final(self).our_id == old(self).our_id,
            final(self).listen@ == old(self).listen@,
            final(self).peers@.len() == old(self).peers@.len(),
            final(self).sessions@.len() == old(self).sessions@.len() + 1,
            final(self).sessions@.drop_last() == old(self).sessions@,
            final(self).sessions@.last().sid == sid,
            final(self).sessions@.last().peer@ == old(self).peers@[idx as int].id@,
            final(self).sessions@.last().addr@ == addr@,
            final(self).sessions@.last().ty == ty,
            !final(self).sessions@.last().blocked,
            forall|i: int| 0 <= i < old(self).peers@.len() && i != idx ==> final(self).peers@[i] == old(self).peers@[i],
            ({
                let (p, q) = (old(self).peers@[idx as int], final(self).peers@[idx as int]);
                &&& q.connectedness == Connectedness::Connected
                &&& q.session_id == sid
                &&& q.retry.count == 0
                &&& q.retry.next_at == p.retry.next_at
                &&& q.connected_at == now
                &&& q.id == p.id
                &&& q.multiaddrs == p.multiaddrs
                &&& q.tags == p.tags
                &&& q.trust_metric == p.trust_metric
                &&& q.pubkey == p.pubkey
            }),
    {
        let ghost peers0 = self.peers@;
        let ghost sessions0 = self.sessions@;
        proof {
            assert(!has_session_of(sessions0, peers0[idx as int].id@));
        }
        let pid = self.peers[idx].id.copy();
        let session = Session::new(sid, pid, addr, ty);
        self.sessions.push(session);
        self.peers[idx].mark_connected(sid, now);
        proof {
            let peers = self.peers@;
            let sessions = self.sessions@;
            assert(sessions.drop_last() =~= sessions0);
            assert(peers[idx as int].wf());
            assert forall|i: int| 0 <= i < peers.len() implies (#[trigger] peers[i]).wf() by {
                if i != idx {
                    assert(peers[i] == peers0[i]);
                }
            }
            assert forall|i: int, k: int|
                0 <= i < peers.len() && 0 <= k < peers.len() && i != k implies (#[trigger] peers[i]).id@
                != (#[trigger] peers[k]).id@ by {
                assert(peers[i].id@ == peers0[i].id@ && peers[k].id@ == peers0[k].id@);
            }
            assert forall|j: int, k: int|
                0 <= j < sessions.len() && 0 <= k < sessions.len() && j != k implies (#[trigger] sessions[j]).sid
                != (#[trigger] sessions[k]).sid && sessions[j].peer@ != sessions[k].peer@ by {
                if j < sessions0.len() && k < sessions0.len() {
                    assert(sessions[j] == sessions0[j] && sessions[k] == sessions0[k]);
                } else if j < sessions0.len() {
                    assert(sessions[j] == sessions0[j]);
                    assert(!has_sid(sessions0, sid));
                    assert(sessions0[j].peer@ != peers0[idx as int].id@);
                } else {
                    assert(sessions[k] == sessions0[k]);
                    assert(sessions0[k].peer@ != peers0[idx as int].id@);
                }
            }
            assert forall|j: int| 0 <= j < sessions.len() implies has_peer(peers, (#[trigger] sessions[j]).peer@)
                && sessions[j].sid != 0 by {
                if j < sessions0.len() {
                    assert(sessions[j] == sessions0[j]);
                    let i = choose|i: int| 0 <= i < peers0.len() && (#[trigger] peers0[i]).id@ == sessions[j].peer@;
                    assert(peers[i].id@ == peers0[i].id@);
                } else {
                    assert(peers[idx as int].id@ == sessions[j].peer@);
                }
            }
            assert forall|i: int, j: int|
                0 <= i < peers.len() && 0 <= j < sessions.len() && (#[trigger] sessions[j]).peer@
                    == (#[trigger] peers[i]).id@ implies peers[i].session_id == sessions[j].sid by {
                if j < sessions0.len() {
                    assert(sessions[j] == sessions0[j]);
                    if i == idx {
                        assert(sessions0[j].peer@ == peers0[idx as int].id@);
                    } else {
                        assert(peers[i] == peers0[i]);
                    }
                } else {
                    if i != idx {
                        assert(peers0[i].id@ != peers0[idx as int].id@);
                    }
                }
            }
            assert forall|i: int| 0 <= i < peers.len() implies ((#[trigger] peers[i]).connectedness
                == Connectedness::Connected <==> has_session_of(sessions, peers[i].id@)) by {
                if i == idx {
                    assert(sessions[sessions.len() - 1].peer@ == peers[i].id@);
                } else {
                    assert(peers[i] == peers0[i]);
                    assert(peers0[i].id@ != peers0[idx as int].id@);
                    if has_session_of(sessions0, peers[i].id@) {
                        let j = choose|j: int| 0 <= j < sessions0.len() && (#[trigger] sessions0[j]).peer@ == peers[i].id@;
                        assert(sessions[j] == sessions0[j]);
                    }
                    if has_session_of(sessions, peers[i].id@) {
                        let j = choose|j: int| 0 <= j < sessions.len() && (#[trigger] sessions[j]).peer@ == peers[i].id@;
                        assert(j < sessions0.len());
                        assert(sessions[j] == sessions0[j]);
                    }
                }
            }
        }
    }

    /// Closes session `sid`, if live, and marks its peer disconnected at `now`.
    /// Gives the index of that peer.
    pub fn remove_session(&mut self, sid: u64, now: u64) -> (r: Option<usize>)
        requires
            old(self).wf(),
        ensures
            final(self).wf(),
            final(self).our_id == old(self).our_id,
            final(self).listen@ == old(self).listen@,
            final(self).peers@.len() == old(self).peers@.len(),
            !has_sid(final(self).sessions@, sid),
            r.is_none() == !has_sid(old(self).sessions@, sid),
            r.is_none() ==> final(self).sessions@ == old(self).sessions@ && final(self).peers@
                == old(self).peers@,
            r.is_some() ==> final(self).sessions@.len() + 1 == old(self).sessions@.len(),
            r.is_some() ==> forall|s: Session| s.sid != sid ==> (#[trigger] old(self).sessions@.contains(s)
                <==> final(self).sessions@.contains(s)),
            r.is_some() ==> ({
                let i = r.unwrap() as int;
                let (p, q) = (old(self).peers@[i], final(self).peers@[i]);
                &&& 0 <= i < old(self).peers@.len()
                &&& p.connectedness == Connectedness::Connected
                &&& p.session_id == sid
                &&& q.connectedness == Connectedness::CanConnect
                &&& q.session_id == 0
                &&& q.disconnected_at == now
                &&& q.alive == crate::peer::sat_sub(now, p.connected_at)
                &&& q.connected_at == p.connected_at
                &&& q.retry == p.retry
                &&& q.id == p.id
                &&& q.multiaddrs == p.multiaddrs
                &&& q.tags == p.tags
                &&& q.trust_metric == p.trust_metric
                &&& q.pubkey == p.pubkey
                &&& forall|k: int| 0 <= k < old(self).peers@.len() && k != i ==> final(self).peers@[k] == old(self).peers@[k]
            }),
            r.is_some() ==> count_type(final(self).sessions@, SessionType::Inbound) + count_type(final(self).sessions@, SessionType::Outbound)
                + 1 == count_type(old(self).sessions@, SessionType::Inbound) + count_type(old(self).sessions@, SessionType::Outbound),
    {
        let ghost peers0 = self.peers@;
        let ghost sessions0 = self.sessions@;
        match self.find_session(sid) {
            None => None,
            Some(j0) => {
                let pid = self.sessions[j0].peer.copy();
                let idx = match self.find_peer(&pid) {
                    Some(i) => i,
                    None => {
                        proof {
                            assert(has_peer(peers0, sessions0[j0 as int].peer@));
                        }
                        return None;
                    },
                };
                self.sessions.remove(j0);
                self.peers[idx].mark_disconnected(now);
                proof {
                    let peers = self.peers@;
                    let sessions = self.sessions@;
                    assert(sessions =~= sessions0.remove(j0 as int));
                    lemma_count_remove(sessions0, j0 as int);
                    assert(peers[idx as int].wf());
                    assert(peers0[idx as int].session_id == sid);
                    assert forall|k: int| 0 <= k < sessions.len() implies (#[trigger] sessions[k]) == (if k < j0 {
                        sessions0[k]
                    } else {
                        sessions0[k + 1]
                    }) by {}
                    assert forall|i: int| 0 <= i < peers.len() implies (#[trigger] peers[i]).wf() by {
                        if i != idx {
                            assert(peers[i] == peers0[i]);
                        }
                    }
                    assert forall|i: int, k: int|
                        0 <= i < peers.len() && 0 <= k < peers.len() && i != k implies (#[trigger] peers[i]).id@
                        != (#[trigger] peers[k]).id@ by {
                        assert(peers[i].id@ == peers0[i].id@ && peers[k].id@ == peers0[k].id@);
                    }
                    assert forall|j: int, k: int|
                        0 <= j < sessions.len() && 0 <= k < sessions.len() && j != k implies (#[trigger] sessions[j]).sid
                        != (#[trigger] sessions[k]).sid && sessions[j].peer@ != sessions[k].peer@ by {
                        let jj = if j < j0 { j } else { j + 1 };
                        let kk = if k < j0 { k } else { k + 1 };
                        assert(sessions[j] == sessions0[jj] && sessions[k] == sessions0[kk]);
                    }
                    assert forall|j: int| 0 <= j < sessions.len() implies has_peer(peers, (#[trigger] sessions[j]).peer@)
                        && sessions[j].sid != 0 by {
                        let jj = if j < j0 { j } else { j + 1 };
                        assert(sessions[j] == sessions0[jj]);
                        let i = choose|i: int| 0 <= i < peers0.len() && (#[trigger] peers0[i]).id@ == sessions[j].peer@;
                        assert(peers[i].id@ == peers0[i].id@);
                    }
                    assert forall|i: int, j: int|
                        0 <= i < peers.len() && 0 <= j < sessions.len() && (#[trigger] sessions[j]).peer@
                            == (#[trigger] peers[i]).id@ implies peers[i].session_id == sessions[j].sid by {
                        let jj = if j < j0 { j } else { j + 1 };
                        assert(sessions[j] == sessions0[jj]);
                        if i == idx {
                            assert(sessions0[j0 as int].peer@ == peers0[idx as int].id@);
                        } else {
                            assert(peers[i] == peers0[i]);
                        }
                    }
                    assert forall|i: int| 0 <= i < peers.len() implies ((#[trigger] peers[i]).connectedness
                        == Connectedness::Connected <==> has_session_of(sessions, peers[i].id@)) by {
                        if i == idx {
                            if has_session_of(sessions, peers[i].id@) {
                                let j = choose|j: int| 0 <= j < sessions.len() && (#[trigger] sessions[j]).peer@ == peers[i].id@;
                                let jj = if j < j0 { j } else { j + 1 };
                                assert(sessions[j] == sessions0[jj]);
                            }
                        } else {
                            assert(peers[i] == peers0[i]);
                            if has_session_of(sessions0, peers[i].id@) {
                                let j = choose|j: int| 0 <= j < sessions0.len() && (#[trigger] sessions0[j]).peer@ == peers[i].id@;
                                assert(peers0[i].id@ != peers0[idx as int].id@);
                                assert(j != j0);
                                if j < j0 {
                                    assert(sessions[j] == sessions0[j]);
                                } else {
                                    assert(sessions[j - 1] == sessions0[j]);
                                }
                            }
                            if has_session_of(sessions, peers[i].id@) {
                                let j = choose|j: int| 0 <= j < sessions.len() && (#[trigger] sessions[j]).peer@ == peers[i].id@;
                                let jj = if j < j0 { j } else { j + 1 };
                                assert(sessions[j] == sessions0[jj]);
                            }
                        }
                    }
                    assert(!has_sid(sessions, sid)) by {
                        if has_sid(sessions, sid) {
                            let j = choose|j: int| 0 <= j < sessions.len() && (#[trigger] sessions[j]).sid == sid;
                            let jj = if j < j0 { j } else { j + 1 };
                            assert(sessions[j] == sessions0[jj]);
                        }
                    }
                    assert forall|s: Session| s.sid != sid implies (#[trigger] sessions0.contains(s)
                        <==> sessions.contains(s)) by {
                        if sessions0.contains(s) {
                            let k = choose|k: int| 0 <= k < sessions0.len() && sessions0[k] == s;
                            if k < j0 {
                                assert(sessions[k] == s);
                            } else {
                                assert(k != j0);
                                assert(sessions[k - 1] == s);
                            }
                        }
                        if sessions.contains(s) {
                            let k = choose|k: int| 0 <= k < sessions.len() && sessions[k] == s;
                            let kk = if k < j0 { k } else { k + 1 };
                            assert(sessions0[kk] == s);
                        }
                    }
                }
                Some(idx)
            },
        }
    }
}

/// Removing one session lowers the count of its direction by one.
proof fn lemma_count_remove(s: Seq<Session>, j: int)
    requires
        0 <= j < s.len(),
    ensures
        count_type(s.remove(j), SessionType::Inbound) + count_type(s.remove(j), SessionType::Outbound) + 1
            == count_type(s, SessionType::Inbound) + count_type(s, SessionType::Outbound),
    decreases s.len(),
{
    if j == s.len() - 1 {
        assert(s.remove(j) =~= s.drop_last());
    } else {
        lemma_count_remove(s.drop_last(), j);
        assert(s.remove(j).drop_last() =~= s.drop_last().remove(j));
        assert(s.remove(j).last() == s.last());
    }
}

/// Every session is inbound or outbound.
pub proof fn lemma_count_total(s: Seq<Session>)
    ensures
        count_type(s, SessionType::Inbound) + count_type(s, SessionType::Outbound) == s.len(),
    decreases s.len(),
{
    if s.len() > 0 {
        lemma_count_total(s.drop_last());
    }
}

/// `l` without any copy of `x`.
pub open spec fn without(l: Seq<MultiaddrView>, x: MultiaddrView) -> Seq<MultiaddrView>
    decreases l.len(),
{
    if l.len() == 0 {
        l
    } else if l.last() == x {
        without(l.drop_last(), x)
    } else {
        without(l.drop_last(), x).push(l.last())
    }
}

/// `l` with `x` added at the end, unless it is there already.
pub open spec fn with_added(l: Seq<MultiaddrView>, x: MultiaddrView) -> Seq<MultiaddrView> {
    if l.contains(x) {
        l
    } else {
        l.push(x)
    }
}

pub open spec fn listen_view(l: Seq<Multiaddr>) -> Seq<MultiaddrView> {
    l.map_values(|a: Multiaddr| a@)
}

proof fn lemma_without_absent(l: Seq<MultiaddrView>, x: MultiaddrView)
    requires
        !l.contains(x),
    ensures
        without(l, x) == l,
    decreases l.len(),
{
    if l.len() > 0 {
        assert(!l.drop_last().contains(x)) by {
            if l.drop_last().contains(x) {
                let k = choose|k: int| 0 <= k < l.drop_last().len() && l.drop_last()[k] == x;
                assert(l[k] == x);
            }
        }
        lemma_without_absent(l.drop_last(), x);
        assert(l.drop_last().push(l.last()) =~= l);
    }
}

/// Adding a listen address and removing it again gives back the listen set,
/// where the address was not in it before.
pub proof fn lemma_listen_round_trip(l: Seq<MultiaddrView>, a: MultiaddrView, our: Seq<u8>)
    requires
        !l.contains(with_id(a, our)),
    ensures
        without(with_added(l, with_id(a, our)), with_id(a, our)) == l,
{
    let x = with_id(a, our);
    assert(l.push(x).drop_last() =~= l);
    lemma_without_absent(l, x);
}

impl Registry {
    /// Adds one of our listen addresses, with our id pushed.
    pub fn add_listen(&mut self, a: &Multiaddr)
        requires
            old(self).wf(),
        ensures
            final(self).wf(),
            listen_view(final(self).listen@) == with_added(listen_view(old(self).listen@), with_id(a@, old(self).our_id@)),
            final(self).peers@ == old(self).peers@,
            final(self).sessions@ == old(self).sessions@,
            final(self).our_id == old(self).our_id,
    {
        let n = a.with_peer_id(&self.our_id);
        let ghost before = self.listen@;
        match self.find_listen(&n) {
            Some(i) => {
                assert(listen_view(before)[i as int] == n@);
                return;
            },
            None => {},
        }
        self.listen.push(n);
        proof {
            assert(listen_view(self.listen@) =~= listen_view(before).push(n@));
            assert forall|k: int| 0 <= k < self.listen@.len() implies (#[trigger] self.listen@[k])@.2 == Some(self.our_id@) by {
                if k < before.len() {
                    assert(self.listen@[k] == before[k]);
                }
            }
        }
    }

    /// Index of a listen address.
    pub fn find_listen(&self, a: &Multiaddr) -> (r: Option<usize>)
        ensures
            match r {
                Some(i) => i < self.listen@.len() && self.listen@[i as int]@ == a@,
                None => !listen_view(self.listen@).contains(a@),
            },
    {
        let mut i: usize = 0;
        while i < self.listen.len()
            invariant
                i <= self.listen@.len(),
                forall|k: int| 0 <= k < i ==> (#[trigger] self.listen@[k])@ != a@,
            decreases self.listen@.len() - i,
        {
            if self.listen[i].same(a) {
                return Some(i);
            }
            i = i + 1;
        }
        proof {
            if listen_view(self.listen@).contains(a@) {
                let k = choose|k: int| 0 <= k < listen_view(self.listen@).len() && listen_view(self.listen@)[k] == a@;
                assert(self.listen@[k]@ == a@);
            }
        }
        None
    }

    /// Removes one of our listen addresses, matched with our id pushed.
    pub fn remove_listen(&mut self, a: &Multiaddr)
        requires
            old(self).wf(),
        ensures
            final(self).wf(),
            listen_view(final(self).listen@) == without(listen_view(old(self).listen@), with_id(a@, old(self).our_id@)),
            final(self).peers@ == old(self).peers@,
            final(self).sessions@ == old(self).sessions@,
            final(self).our_id == old(self).our_id,
    {
        let n = a.with_peer_id(&self.our_id);
        let ghost before = self.listen@;
        let mut kept: Vec<Multiaddr> = Vec::new();
        let mut i: usize = 0;
        while i < self.listen.len()
            invariant
                i <= self.listen@.len(),
                self.listen@ == before,
                listen_view(kept@) == without(listen_view(before.subrange(0, i as int)), n@),
                forall|k: int| 0 <= k < kept@.len() ==> (#[trigger] kept@[k])@.2 == Some(self.our_id@),
                forall|k: int| 0 <= k < self.listen@.len() ==> (#[trigger] self.listen@[k])@.2 == Some(self.our_id@),
            decreases self.listen@.len() - i,
        {
            let ghost sub = listen_view(before.subrange(0, i + 1));
            assert(sub.drop_last() =~= listen_view(before.subrange(0, i as int)));
            assert(sub.last() == self.listen@[i as int]@);
            if !self.listen[i].same(&n) {
                let ghost k0 = kept@;
                kept.push(self.listen[i].copy());
                assert(listen_view(kept@) =~= listen_view(k0).push(self.listen@[i as int]@));
            }
            i = i + 1;
        }
        assert(before.subrange(0, before.len() as int) =~= before);
        self.listen = kept;
    }

    /// Our listen addresses.
    pub fn listen(&self) -> (r: Vec<Multiaddr>)
        ensures
            listen_view(r@) == listen_view(self.listen@),
    {
        let mut r: Vec<Multiaddr> = Vec::new();
        let mut i: usize = 0;
        while i < self.listen.len()
            invariant
                i <= self.listen@.len(),
                listen_view(r@) == listen_view(self.listen@.subrange(0, i as int)),
            decreases self.listen@.len() - i,
        {
            let ghost r0 = r@;
            r.push(self.listen[i].copy());
            assert(listen_view(r@) =~= listen_view(r0).push(self.listen@[i as int]@));
            assert(listen_view(self.listen@.subrange(0, i + 1)) =~= listen_view(self.listen@.subrange(0, i as int)).push(
                self.listen@[i as int]@,
            ));
            i = i + 1;
        }
        assert(self.listen@.subrange(0, self.listen@.len() as int) =~= self.listen@);
        r
    }
}

impl Registry {
    /// Marks the session at `j` blocked.
    pub fn set_blocked(&mut self, j: usize)
        requires
            old(self).wf(),
            j < old(self).sessions@.len(),
        ensures
            final(self).wf(),
            final(self).peers@ == old(self).peers@,
            final(self).listen@ == old(self).listen@,
            final(self).our_id == old(self).our_id,
            final(self).sessions@.len() == old(self).sessions@.len(),
            final(self).sessions@[j as int].blocked,
            final(self).sessions@[j as int].sid == old(self).sessions@[j as int].sid,
            final(self).sessions@[j as int].peer == old(self).sessions@[j as int].peer,
            forall|k: int| 0 <= k < old(self).sessions@.len() && k != j ==> final(self).sessions@[k] == old(self).sessions@[k],
    {
        let ghost s0 = self.sessions@;
        self.sessions[j].blocked = true;
        proof {
            let s1 = self.sessions@;
            let peers = self.peers@;
            assert forall|k: int| 0 <= k < s1.len() implies (#[trigger] s1[k]).sid == s0[k].sid && s1[k].peer@ == s0[k].peer@ by {}
            assert forall|i: int| 0 <= i < peers.len() implies ((#[trigger] peers[i]).connectedness
                == Connectedness::Connected <==> has_session_of(s1, peers[i].id@)) by {
                if has_session_of(s0, peers[i].id@) {
                    let k = choose|k: int| 0 <= k < s0.len() && (#[trigger] s0[k]).peer@ == peers[i].id@;
                    assert(s1[k].peer@ == peers[i].id@);
                }
                if has_session_of(s1, peers[i].id@) {
                    let k = choose|k: int| 0 <= k < s1.len() && (#[trigger] s1[k]).peer@ == peers[i].id@;
                    assert(s0[k].peer@ == peers[i].id@);
                }
            }
            assert forall|k: int| 0 <= k < s1.len() implies has_peer(peers, (#[trigger] s1[k]).peer@) by {
                assert(has_peer(peers, s0[k].peer@));
            }
            assert forall|x: int, y: int|
                0 <= x < s1.len() && 0 <= y < s1.len() && x != y implies (#[trigger] s1[x]).sid != (#[trigger] s1[y]).sid
                && s1[x].peer@ != s1[y].peer@ by {
                assert(s0[x].sid != s0[y].sid && s0[x].peer@ != s0[y].peer@);
            }
            assert forall|i: int, k: int|
                0 <= i < peers.len() && 0 <= k < s1.len() && (#[trigger] s1[k]).peer@ == (#[trigger] peers[i]).id@
                implies peers[i].session_id == s1[k].sid by {
                assert(s0[k].peer@ == peers[i].id@);
            }
        }
    }
}

} // verus!
