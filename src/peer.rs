//! Peer identities, addresses and the per-peer record.

use vstd::prelude::*;

use crate::addr::MultiaddrSet;
use crate::tags::{Retry, Tags, TagKind};
use crate::trust::TrustMetric;

verus! {

/// Opaque identifier of a peer, compared by its bytes.
#[derive(Debug, Clone, PartialEq, Eq, Hash)]
pub struct PeerId {
    pub bytes: Vec<u8>,
}

impl View for PeerId {
    type V = Seq<u8>;

    open spec fn view(&self) -> Seq<u8> {
        self.bytes@
    }
}

/// Copies a byte vector, keeping its contents.
pub fn copy_bytes(b: &Vec<u8>) -> (r: Vec<u8>)
    ensures
        r@ == b@,
{
    let mut r: Vec<u8> = Vec::with_capacity(b.len());
    let mut i: usize = 0;
    while i < b.len()
        invariant
            i <= b@.len(),
            r@ == b@.subrange(0, i as int),
        decreases b@.len() - i,
    {
        r.push(b[i]);
        i = i + 1;
        assert(r@ =~= b@.subrange(0, i as int));
    }
    assert(r@ =~= b@);
    r
}

/// Compares two byte vectors.
pub fn same_bytes(a: &Vec<u8>, b: &Vec<u8>) -> (r: bool)
    ensures
        r == (a@ == b@),
{
    if a.len() != b.len() {
        return false;
    }
    let mut i: usize = 0;
    while i < a.len()
        invariant
            a@.len() == b@.len(),
            i <= a@.len(),
            forall|j: int| 0 <= j < i ==> a@[j] == b@[j],
        decreases a@.len() - i,
    {
        if a[i] != b[i] {
            return false;
        }
        i = i + 1;
    }
    assert(a@ =~= b@);
    true
}

impl PeerId {
    pub fn new(bytes: Vec<u8>) -> (r: PeerId)
        ensures
            r@ == bytes@,
    {
        PeerId { bytes }
    }

    /// A copy of this identifier.
    pub fn copy(&self) -> (r: PeerId)
        ensures
            r@ == self@,
    {
        PeerId { bytes: copy_bytes(&self.bytes) }
    }

    pub fn same(&self, other: &PeerId) -> (r: bool)
        ensures
            r == (self@ == other@),
    {
        same_bytes(&self.bytes, &other.bytes)
    }
}

/// How a peer stands towards us.
#[derive(Debug, Clone, Copy, PartialEq, Eq, Structural)]
pub enum Connectedness {
    NotConnected,
    CanConnect,
    Connected,
    Unconnectable,
    Connecting,
}

/// The number that stands for each state.
pub open spec fn connectedness_code(c: Connectedness) -> usize {
    match c {
        Connectedness::NotConnected => 0,
        Connectedness::CanConnect => 1,
        Connectedness::Connected => 2,
        Connectedness::Unconnectable => 3,
        Connectedness::Connecting => 4,
    }
}

/// The state a number stands for; unknown numbers read as `NotConnected`.
pub open spec fn connectedness_of_code(n: usize) -> Connectedness {
    if n == 1 {
        Connectedness::CanConnect
    } else if n == 2 {
        Connectedness::Connected
    } else if n == 3 {
        Connectedness::Unconnectable
    } else if n == 4 {
        Connectedness::Connecting
    } else {
        Connectedness::NotConnected
    }
}

impl From<usize> for Connectedness {
    fn from(src: usize) -> (r: Connectedness) {
        match src {
            1 => Connectedness::CanConnect,
            2 => Connectedness::Connected,
            3 => Connectedness::Unconnectable,
            4 => Connectedness::Connecting,
            _ => Connectedness::NotConnected,
        }
    }
}

impl vstd::std_specs::convert::FromSpecImpl<usize> for Connectedness {
    open spec fn obeys_from_spec() -> bool {
        true
    }

    open spec fn from_spec(src: usize) -> Connectedness {
        connectedness_of_code(src)
    }
}

impl From<Connectedness> for usize {
    fn from(src: Connectedness) -> (r: usize) {
        match src {
            Connectedness::NotConnected => 0,
            Connectedness::CanConnect => 1,
            Connectedness::Connected => 2,
            Connectedness::Unconnectable => 3,
            Connectedness::Connecting => 4,
        }
    }
}

impl vstd::std_specs::convert::FromSpecImpl<Connectedness> for usize {
    open spec fn obeys_from_spec() -> bool {
        true
    }

    open spec fn from_spec(src: Connectedness) -> usize {
        connectedness_code(src)
    }
}


/// Why a peer record refused a change.
#[derive(Debug, Clone, Copy, PartialEq, Eq, Structural)]
pub enum PeerError {
    /// The public key does not hash to the peer's id.
    PublicKeyNotMatchId,
}

/// Everything known of one peer.
#[derive(Debug)]
pub struct Peer {
    pub id: PeerId,
    pub multiaddrs: MultiaddrSet,
    pub retry: Retry,
    pub tags: Tags,
    pub pubkey: Option<Vec<u8>>,
    pub trust_metric: Option<TrustMetric>,
    pub connectedness: Connectedness,
    /// Session of the live connection, 0 when there is none.
    pub session_id: u64,
    pub connected_at: u64,
    pub disconnected_at: u64,
    /// Seconds the last session lived.
    pub alive: u64,
}

/// `a - b`, or zero where `b` is larger.
pub open spec fn sat_sub(a: u64, b: u64) -> u64 {
    if a >= b {
        (a - b) as u64
    } else {
        0
    }
}

pub open spec fn metric_wf(m: Option<TrustMetric>) -> bool {
    match m {
        Some(t) => t.wf(),
        None => true,
    }
}

impl Peer {
    /// The record is well formed: its addresses belong to it.
    pub open spec fn wf(&self) -> bool {
        &&& self.multiaddrs.wf()
        &&& self.multiaddrs.owner@ == self.id@
        &&& metric_wf(self.trust_metric)
    }

    pub fn new(id: PeerId) -> (r: Peer)
        ensures
            r.wf(),
            r.id@ == id@,
            r.multiaddrs@.len() == 0,
            r.retry.count == 0,
            r.retry.next_at == 0,
            !r.tags.always_allow && !r.tags.consensus && r.tags.ban_until.is_none(),
            r.pubkey.is_none(),
            r.trust_metric.is_none(),
            r.connectedness == Connectedness::NotConnected,
            r.session_id == 0,
            r.connected_at == 0 && r.disconnected_at == 0 && r.alive == 0,
    {
        let owner = id.copy();
        Peer {
            id,
            multiaddrs: MultiaddrSet::new(owner),
            retry: Retry::new(),
            tags: Tags::new(),
            pubkey: None,
            trust_metric: None,
            connectedness: Connectedness::NotConnected,
            session_id: 0,
            connected_at: 0,
            disconnected_at: 0,
            alive: 0,
        }
    }

    /// A peer known by its public key; `key_id` is the id that the key hashes to.
    pub fn from_pubkey(pubkey: Vec<u8>, key_id: PeerId) -> (r: Peer)
        ensures
            r.wf(),
            r.id@ == key_id@,
            r.pubkey.is_some() && r.pubkey.unwrap()@ == pubkey@,
            r.multiaddrs@.len() == 0,
            r.connectedness == Connectedness::NotConnected,
            r.retry.count == 0,
            r.trust_metric.is_none(),
    {
        let mut p = Peer::new(key_id);
        p.pubkey = Some(pubkey);
        p
    }

    pub fn owned_id(&self) -> (r: PeerId)
        ensures
            r@ == self.id@,
    {
        self.id.copy()
    }

    pub fn has_pubkey(&self) -> (r: bool)
        ensures
            r == self.pubkey.is_some(),
    {
        self.pubkey.is_some()
    }

    pub fn owned_pubkey(&self) -> (r: Option<Vec<u8>>)
        ensures
            r.is_some() == self.pubkey.is_some(),
            r.is_some() ==> r.unwrap()@ == self.pubkey.unwrap()@,
    {
        match &self.pubkey {
            Some(k) => Some(copy_bytes(k)),
            None => None,
        }
    }

    /// Records the public key, where `key_id`, the id that it hashes to, is this
    /// peer's id.
    pub fn set_pubkey(&mut self, pubkey: Vec<u8>, key_id: &PeerId) -> (r: Result<(), PeerError>)
        requires
            old(self).wf(),
        ensures
            final(self).wf(),
            r.is_ok() == (key_id@ == old(self).id@),
            r.is_ok() ==> final(self).pubkey.is_some() && final(self).pubkey.unwrap()@ == pubkey@,
            r.is_err() ==> r == Err::<(), PeerError>(PeerError::PublicKeyNotMatchId)
                && final(self).pubkey == old(self).pubkey,
            final(self).id == old(self).id,
            final(self).retry == old(self).retry,
            final(self).tags == old(self).tags,
            final(self).trust_metric == old(self).trust_metric,
            final(self).multiaddrs == old(self).multiaddrs,
            final(self).connectedness == old(self).connectedness,
            final(self).session_id == old(self).session_id,
    {
        if !key_id.same(&self.id) {
            Err(PeerError::PublicKeyNotMatchId)
        } else {
            self.pubkey = Some(pubkey);
            Ok(())
        }
    }

    pub fn set_trust_metric(&mut self, metric: TrustMetric)
        requires
            old(self).wf(),
            metric.wf(),
        ensures
            final(self).wf(),
            final(self).trust_metric == Some(metric),
            final(self).id == old(self).id,
            final(self).multiaddrs == old(self).multiaddrs,
            final(self).connectedness == old(self).connectedness,
            final(self).session_id == old(self).session_id,
            final(self).tags == old(self).tags,
            final(self).retry == old(self).retry,
    {
        self.trust_metric = Some(metric);
    }

    pub fn remove_trust_metric(&mut self)
        requires
            old(self).wf(),
        ensures
            final(self).wf(),
            final(self).trust_metric.is_none(),
            final(self).id == old(self).id,
            final(self).multiaddrs == old(self).multiaddrs,
            final(self).connectedness == old(self).connectedness,
            final(self).session_id == old(self).session_id,
    {
        self.trust_metric = None;
    }

    /// The peer's score, `None` without a metric or without an opinion yet.
    pub fn trust_score(&self) -> (r: Option<u64>)
        requires
            self.wf(),
        ensures
            r == match self.trust_metric {
                Some(m) => m.score_spec(),
                None => None,
            },
    {
        match &self.trust_metric {
            Some(m) => m.trust_score(),
            None => None,
        }
    }

    pub fn connectedness(&self) -> (r: Connectedness)
        ensures
            r == self.connectedness,
    {
        self.connectedness
    }

    pub fn set_connectedness(&mut self, flag: Connectedness)
        ensures
            final(self).connectedness == flag,
            final(self).alive == old(self).alive,
            final(self).pubkey == old(self).pubkey,
            final(self).id == old(self).id,
            final(self).multiaddrs == old(self).multiaddrs,
            final(self).session_id == old(self).session_id,
            final(self).tags == old(self).tags,
            final(self).retry == old(self).retry,
            final(self).trust_metric == old(self).trust_metric,
    {
        self.connectedness = flag;
    }

    pub fn set_session_id(&mut self, sid: u64)
        ensures
            final(self).session_id == sid,
            final(self).id == old(self).id,
            final(self).multiaddrs == old(self).multiaddrs,
            final(self).connectedness == old(self).connectedness,
            final(self).tags == old(self).tags,
            final(self).retry == old(self).retry,
            final(self).trust_metric == old(self).trust_metric,
    {
        self.session_id = sid;
    }

    pub fn session_id(&self) -> (r: u64)
        ensures
            r == self.session_id,
    {
        self.session_id
    }

    pub fn connected_at(&self) -> (r: u64)
        ensures
            r == self.connected_at,
    {
        self.connected_at
    }

    pub fn disconnected_at(&self) -> (r: u64)
        ensures
            r == self.disconnected_at,
    {
        self.disconnected_at
    }

    pub fn alive(&self) -> (r: u64)
        ensures
            r == self.alive,
    {
        self.alive
    }

    pub fn set_alive(&mut self, secs: u64)
        ensures
            final(self).alive == secs,
            final(self).id == old(self).id,
            final(self).multiaddrs == old(self).multiaddrs,
            final(self).connectedness == old(self).connectedness,
            final(self).session_id == old(self).session_id,
            final(self).tags == old(self).tags,
            final(self).retry == old(self).retry,
            final(self).trust_metric == old(self).trust_metric,
    {
        self.alive = secs;
    }

    pub fn set_connected_at(&mut self, at: u64)
        ensures
            final(self).connected_at == at,
            final(self).id == old(self).id,
            final(self).multiaddrs == old(self).multiaddrs,
            final(self).connectedness == old(self).connectedness,
            final(self).session_id == old(self).session_id,
            final(self).tags == old(self).tags,
            final(self).retry == old(self).retry,
            final(self).trust_metric == old(self).trust_metric,
    {
        self.connected_at = at;
    }

    /// Seconds since the peer connected, as of `now`.
    pub fn update_alive(&mut self, now: u64)
        ensures
            final(self).alive == sat_sub(now, old(self).connected_at),
            final(self).id == old(self).id,
            final(self).multiaddrs == old(self).multiaddrs,
            final(self).connectedness == old(self).connectedness,
            final(self).session_id == old(self).session_id,
            final(self).tags == old(self).tags,
            final(self).retry == old(self).retry,
            final(self).trust_metric == old(self).trust_metric,
            final(self).connected_at == old(self).connected_at,
    {
        self.alive = now.saturating_sub(self.connected_at);
    }

    /// The peer holds session `sid` from `now` on; its retries start over.
    pub fn mark_connected(&mut self, sid: u64, now: u64)
        ensures
            final(self).connectedness == Connectedness::Connected,
            final(self).session_id == sid,
            final(self).retry.count == 0,
            final(self).retry.next_at == old(self).retry.next_at,
            final(self).connected_at == now,
            final(self).id == old(self).id,
            final(self).multiaddrs == old(self).multiaddrs,
            final(self).tags == old(self).tags,
            final(self).trust_metric == old(self).trust_metric,
            final(self).pubkey == old(self).pubkey,
    {
        self.connectedness = Connectedness::Connected;
        self.session_id = sid;
        self.retry.reset();
        self.connected_at = now;
    }

    /// The peer's session ended at `now`.
    pub fn mark_disconnected(&mut self, now: u64)
        ensures
            final(self).connectedness == Connectedness::CanConnect,
            final(self).session_id == 0,
            final(self).disconnected_at == now,
            final(self).alive == sat_sub(now, old(self).connected_at),
            final(self).connected_at == old(self).connected_at,
            final(self).retry == old(self).retry,
            final(self).id == old(self).id,
            final(self).multiaddrs == old(self).multiaddrs,
            final(self).tags == old(self).tags,
            final(self).trust_metric == old(self).trust_metric,
            final(self).pubkey == old(self).pubkey,
    {
        self.connectedness = Connectedness::CanConnect;
        self.session_id = 0;
        self.disconnected_at = now;
        self.alive = now.saturating_sub(self.connected_at);
    }

    /// The peer is banned at `now`. A ban that ran out is removed, and the
    /// peer's trust history starts over.
    pub fn banned(&mut self, now: u64) -> (r: bool)
        requires
            old(self).wf(),
        ensures
            final(self).wf(),
            r == crate::tags::ban_in_force(old(self).tags, now),
            r ==> *final(self) == *old(self),
            old(self).tags.ban_until.is_none() ==> *final(self) == *old(self),
            !r ==> final(self).tags == crate::tags::tags_remove(old(self).tags, TagKind::Ban),
            !r && old(self).tags.ban_until.is_some() && old(self).trust_metric.is_some() ==> ({
                let (m0, m1) = (old(self).trust_metric.unwrap(), final(self).trust_metric.unwrap());
                &&& m1.history@.len() == 0
                &&& m1.good == 0 && m1.bad == 0
                &&& m1.config == m0.config
                &&& m1.started == m0.started
            }),
            final(self).pubkey == old(self).pubkey,
            final(self).connected_at == old(self).connected_at,
            final(self).disconnected_at == old(self).disconnected_at,
            final(self).alive == old(self).alive,
            final(self).id == old(self).id,
            final(self).multiaddrs == old(self).multiaddrs,
            final(self).connectedness == old(self).connectedness,
            final(self).session_id == old(self).session_id,
            final(self).retry == old(self).retry,
            final(self).trust_metric.is_some() == old(self).trust_metric.is_some(),
    {
        match self.tags.get_banned_until() {
            Some(until) => {
                if now < until {
                    return true;
                }
                self.tags.remove(TagKind::Ban);
                match &mut self.trust_metric {
                    Some(m) => m.reset_history(),
                    None => {},
                }
                false
            },
            None => false,
        }
    }
}

/// Reading back the number of a state gives the state.
pub proof fn lemma_connectedness_code_round_trip(c: Connectedness)
    ensures
        connectedness_of_code(connectedness_code(c)) == c,
{
}

} // verus!
