//! The manager: consumes one event at a time, updates the registry and the
//! trust metrics, and answers with commands for the transport.

use vstd::prelude::*;

use crate::addr::{MAX_RETRY_COUNT, Multiaddr};
use crate::peer::{Connectedness, Peer, PeerId};
use crate::registry::{Registry, Session, SessionType, has_peer, has_session_of, links_hold};
use crate::tags::TagKind;
use crate::trust::{TrustMetric, TrustMetricConfig};

verus! {

/// Seconds a dial may stay outstanding.
pub const MAX_CONNECTING_TIMEOUT: u64 = 15;

/// Dials started beyond the outbound deficit.
pub const MAX_CONNECTING_MARGIN: usize = 2;

/// Upper bound of the random back-off, in seconds.
pub const MAX_RANDOM_NEXT_RETRY: u64 = 30;

/// Back-off, in seconds, that a short session must be followed by.
pub const REPEATED_CONNECTION_TIMEOUT: u64 = 60;

/// Sessions shorter than this many seconds count as failures.
pub const SHORT_ALIVE_SESSION: u64 = 60;

/// Ban, in seconds, for going over the same-IP limit.
pub const SAME_IP_LIMIT_BAN: u64 = 300;

/// Retry count whose back-off covers `REPEATED_CONNECTION_TIMEOUT`.
pub const SHORT_SESSION_RETRY: u32 = 5;

/// Bad events that a `Worse` feedback adds.
pub const WORSE_BAD_EVENTS: u64 = 10;

/// Settings of the manager.
#[derive(Debug, Clone)]
pub struct PeerManagerConfig {
    pub our_id: PeerId,
    /// Seed peers with their addresses.
    pub bootstraps: Vec<(PeerId, Vec<Multiaddr>)>,
    pub allowlist: Vec<PeerId>,
    pub allowlist_only: bool,
    pub peer_trust_config: TrustMetricConfig,
    /// Ban in seconds after fatal feedback.
    pub peer_fatal_ban: u64,
    /// Ban in seconds after a score fell below the knock-out line.
    pub peer_soft_ban: u64,
    pub max_connections: usize,
    pub same_ip_conn_limit: usize,
    pub inbound_conn_limit: usize,
    pub outbound_conn_limit: usize,
    /// Seconds between two runs of the routine.
    pub routine_interval: u64,
}

impl PeerManagerConfig {
    pub open spec fn wf(&self) -> bool {
        &&& self.peer_trust_config.wf()
        &&& self.inbound_conn_limit + self.outbound_conn_limit <= self.max_connections
    }
}

/// A copy of a list of addresses.
pub fn copy_addrs(a: &Vec<Multiaddr>) -> (r: Vec<Multiaddr>)
    ensures
        r@.map_values(|x: Multiaddr| x@) == a@.map_values(|x: Multiaddr| x@),
{
    let mut r: Vec<Multiaddr> = Vec::new();
    let mut i: usize = 0;
    while i < a.len()
        invariant
            i <= a@.len(),
            r@.map_values(|x: Multiaddr| x@) == a@.subrange(0, i as int).map_values(|x: Multiaddr| x@),
        decreases a@.len() - i,
    {
        let ghost r0 = r@;
        r.push(a[i].copy());
        assert(r@.map_values(|x: Multiaddr| x@) =~= r0.map_values(|x: Multiaddr| x@).push(a@[i as int]@));
        assert(a@.subrange(0, i + 1).map_values(|x: Multiaddr| x@) =~= a@.subrange(0, i as int).map_values(
            |x: Multiaddr| x@,
        ).push(a@[i as int]@));
        i = i + 1;
    }
    assert(a@.subrange(0, a@.len() as int) =~= a@);
    r
}

/// Why a configuration was refused.
#[derive(Debug, Clone, Copy, PartialEq, Eq, Structural)]
pub enum ConfigError {
    /// The inbound and outbound limits together exceed the connection limit.
    ConnectionLimits,
    /// The trust-metric settings are out of range.
    TrustConfig,
}

/// An outstanding dial.
#[derive(Debug, Clone)]
pub struct ConnectingAttempt {
    pub peer: PeerId,
    /// Addresses still being tried.
    pub multiaddrs: usize,
    pub started_at: u64,
}

/// A command for the transport.
#[derive(Debug, Clone)]
pub enum ConnectionEvent {
    Connect { addrs: Vec<Multiaddr>, target: Option<PeerId> },
    Disconnect(u64),
}

/// A peer whose retries ran out has been given up.
pub open spec fn retry_rule(peers: Seq<Peer>) -> bool {
    forall|i: int|
        0 <= i < peers.len() ==> (#[trigger] peers[i]).retry.count > MAX_RETRY_COUNT
            ==> peers[i].connectedness == Connectedness::Unconnectable
}

/// The peer lists differ at `i` alone, where the record keeps its id and
/// links, stays well formed and keeps the retry rule.
pub open spec fn peer_touched(a: Seq<Peer>, b: Seq<Peer>, sessions: Seq<Session>, i: int) -> bool {
    &&& 0 <= i < a.len()
    &&& b.len() == a.len()
    &&& forall|k: int| 0 <= k < a.len() && k != i ==> b[k] == a[k]
    &&& b[i].id@ == a[i].id@
    &&& b[i].wf()
    &&& (b[i].connectedness == a[i].connectedness || (b[i].connectedness != Connectedness::Connected
        && a[i].connectedness != Connectedness::Connected))
    &&& b[i].session_id == a[i].session_id
    &&& (b[i].retry.count > MAX_RETRY_COUNT ==> b[i].connectedness == Connectedness::Unconnectable)
}

pub proof fn lemma_peer_touched(a: Seq<Peer>, b: Seq<Peer>, sessions: Seq<Session>, i: int)
    requires
        links_hold(a, sessions),
        retry_rule(a),
        peer_touched(a, b, sessions, i),
    ensures
        links_hold(b, sessions),
        retry_rule(b),
{
    assert forall|j: int| 0 <= j < sessions.len() implies has_peer(b, (#[trigger] sessions[j]).peer@) by {
        let k = choose|k: int| 0 <= k < a.len() && (#[trigger] a[k]).id@ == sessions[j].peer@;
        assert(b[k].id@ == a[k].id@);
    }
    assert forall|x: int, y: int|
        0 <= x < b.len() && 0 <= y < b.len() && x != y implies (#[trigger] b[x]).id@ != (#[trigger] b[y]).id@ by {
        assert(a[x].id@ == b[x].id@ && a[y].id@ == b[y].id@);
    }
    assert forall|x: int, j: int|
        0 <= x < b.len() && 0 <= j < sessions.len() && (#[trigger] sessions[j]).peer@ == (#[trigger] b[x]).id@
        implies b[x].session_id == sessions[j].sid by {
        assert(a[x].id@ == b[x].id@);
    }
    assert forall|x: int| 0 <= x < b.len() implies ((#[trigger] b[x]).connectedness
        == Connectedness::Connected <==> has_session_of(sessions, b[x].id@)) by {
        assert(a[x].id@ == b[x].id@);
    }
    assert forall|x: int| 0 <= x < b.len() implies (#[trigger] b[x]).wf() by {
        if x != i {
            assert(b[x] == a[x]);
        }
    }
    assert forall|x: int| 0 <= x < b.len() implies (#[trigger] b[x]).retry.count > MAX_RETRY_COUNT
        ==> b[x].connectedness == Connectedness::Unconnectable by {
        if x != i {
            assert(b[x] == a[x]);
        }
    }
}

/// The peer manager's state.
pub struct PeerManager {
    pub config: PeerManagerConfig,
    pub registry: Registry,
    pub connecting: Vec<ConnectingAttempt>,
}

impl PeerManager {
    pub open spec fn wf(&self) -> bool {
        &&& self.registry.wf()
        &&& self.config.wf()
        &&& self.registry.our_id@ == self.config.our_id@
        &&& retry_rule(self.registry.peers@)
    }

    /// A manager after checking the configuration: it knows the bootstrap
    /// peers with their addresses, ready to be dialled by the first routine,
    /// and the allowlisted peers with `AlwaysAllow`.
    pub fn new(config: PeerManagerConfig) -> (r: Result<PeerManager, ConfigError>)
        ensures
            r.is_err() == !config.wf(),
            !config.peer_trust_config.wf() ==> r == Err::<PeerManager, ConfigError>(ConfigError::TrustConfig),
            config.peer_trust_config.wf() && !config.wf() ==> r == Err::<PeerManager, ConfigError>(ConfigError::ConnectionLimits),
            r.is_ok() ==> ({
                let m = r.unwrap();
                &&& m.wf()
                &&& m.registry.sessions@.len() == 0
                &&& m.connecting@.len() == 0
                &&& m.registry.listen@.len() == 0
                &&& forall|k: int| 0 <= k < config.bootstraps@.len() ==> has_peer(m.registry.peers@, (#[trigger] config.bootstraps@[k]).0@)
                &&& forall|k: int| 0 <= k < config.allowlist@.len() ==> always_allowed(m.registry.peers@, (#[trigger] config.allowlist@[k])@)
                // the registry holds only those peers, as fresh records
                &&& forall|j: int| 0 <= j < m.registry.peers@.len() ==> configured(
                    config,
                    (#[trigger] m.registry.peers@[j]).id@,
                    config.bootstraps@.len() as int,
                    config.allowlist@.len() as int,
                ) && untouched(m.registry.peers@[j]) && (m.registry.peers@[j].tags.always_allow <==> in_allowlist(
                    config,
                    m.registry.peers@[j].id@,
                    config.allowlist@.len() as int,
                ))
            }),
    {
        let tc = config.peer_trust_config;
        if !(tc.interval_secs > 0 && tc.max_history > 0 && 1 <= tc.alpha && tc.alpha <= 100) {
            return Err(ConfigError::TrustConfig);
        }
        if config.inbound_conn_limit > config.max_connections
            || config.outbound_conn_limit > config.max_connections - config.inbound_conn_limit {
            return Err(ConfigError::ConnectionLimits);
        }
        let registry = Registry::new(config.our_id.copy());
        let mut m = PeerManager { config, registry, connecting: Vec::new() };
        let mut b: usize = 0;
        while b < m.config.bootstraps.len()
            invariant
                m.wf(),
                m.config == config,
                m.registry.sessions@.len() == 0,
                m.connecting@.len() == 0,
                m.registry.listen@.len() == 0,
                b <= config.bootstraps@.len(),
                forall|x: int| 0 <= x < b ==> has_peer(m.registry.peers@, (#[trigger] config.bootstraps@[x]).0@),
                forall|j: int| 0 <= j < m.registry.peers@.len() ==> configured(config, (#[trigger] m.registry.peers@[j]).id@, b as int, 0)
                    && fresh_record(m.registry.peers@[j]),
            decreases config.bootstraps@.len() - b,
        {
            let ghost before = m.registry.peers@;
            let id = m.config.bootstraps[b].0.copy();
            let addrs = copy_addrs(&m.config.bootstraps[b].1);
            m.identified_addrs(&id, &addrs);
            proof {
                let after = m.registry.peers@;
                assert forall|j: int| 0 <= j < after.len() implies configured(config, (#[trigger] after[j]).id@, b + 1, 0)
                    && fresh_record(after[j]) by {
                    if j < before.len() && before[j].id@ != id@ {
                        assert(after[j] == before[j]);
                        let x = choose|x: int| 0 <= x < b && (#[trigger] config.bootstraps@[x]).0@ == before[j].id@;
                        assert(0 <= x < b + 1);
                    } else {
                        lemma_peer_of(after, m.registry.sessions@, j);
                        if has_peer(before, id@) {
                            let y = choose|y: int| 0 <= y < before.len() && (#[trigger] before[y]).id@ == id@;
                            lemma_peer_of(before, m.registry.sessions@, y);
                            assert(fresh_record(before[y]));
                        }
                        if j >= before.len() {
                            assert(after[j].id@ == id@) by {
                                let z = choose|z: int| 0 <= z < after.len() && (#[trigger] after[z]).id@ == id@;
                                if z < before.len() {
                                    assert(after[z].id@ == before[z].id@);
                                    assert(has_peer(before, id@));
                                }
                                if z != j {
                                    // the one new record carries the new id
                                    assert(after.len() == before.len() + 1);
                                    assert(j == before.len());
                                    assert(z < before.len());
                                }
                            }
                        }
                        assert(config.bootstraps@[b as int].0@ == id@);
                    }
                }
                assert forall|x: int| 0 <= x < b + 1 implies has_peer(m.registry.peers@, (#[trigger] config.bootstraps@[x]).0@) by {
                    if x < b {
                        let y = choose|y: int| 0 <= y < before.len() && (#[trigger] before[y]).id@ == config.bootstraps@[x].0@;
                        assert(m.registry.peers@[y].id@ == before[y].id@);
                    }
                }
            }
            b = b + 1;
        }
        let mut k: usize = 0;
        while k < m.config.allowlist.len()
            invariant
                m.wf(),
                m.config == config,
                m.registry.sessions@.len() == 0,
                m.connecting@.len() == 0,
                m.registry.listen@.len() == 0,
                k <= config.allowlist@.len(),
                forall|x: int| 0 <= x < config.bootstraps@.len() ==> has_peer(m.registry.peers@, (#[trigger] config.bootstraps@[x]).0@),
                forall|x: int| 0 <= x < k ==> always_allowed(m.registry.peers@, (#[trigger] config.allowlist@[x])@),
                forall|j: int| 0 <= j < m.registry.peers@.len() ==> configured(
                    config,
                    (#[trigger] m.registry.peers@[j]).id@,
                    config.bootstraps@.len() as int,
                    k as int,
                ) && untouched(m.registry.peers@[j]) && (m.registry.peers@[j].tags.always_allow <==> in_allowlist(
                    config,
                    m.registry.peers@[j].id@,
                    k as int,
                )),
            decreases config.allowlist@.len() - k,
        {
            let id = m.config.allowlist[k].copy();
            let ghost before = m.registry.peers@;
            let i = m.peer_index_or_insert(&id);
            let ghost mid = m.registry.peers@;
            m.registry.peers[i].tags.insert(crate::tags::Tag::AlwaysAllow);
            proof {
                lemma_peer_touched(mid, m.registry.peers@, m.registry.sessions@, i as int);
                let after = m.registry.peers@;
                assert forall|x: int| 0 <= x < config.bootstraps@.len() implies has_peer(after, (#[trigger] config.bootstraps@[x]).0@) by {
                    let y = choose|y: int| 0 <= y < before.len() && (#[trigger] before[y]).id@ == config.bootstraps@[x].0@;
                    assert(mid[y] == before[y]);
                    assert(after[y].id@ == mid[y].id@);
                }
                assert forall|j: int| 0 <= j < after.len() implies configured(
                    config,
                    (#[trigger] after[j]).id@,
                    config.bootstraps@.len() as int,
                    k + 1,
                ) && untouched(after[j]) && (after[j].tags.always_allow <==> in_allowlist(config, after[j].id@, k + 1)) by {
                    assert(config.allowlist@[k as int]@ == id@);
                    if j != i {
                        assert(after[j] == mid[j]);
                        assert(j < before.len());
                        assert(mid[j] == before[j]);
                        assert(before[j].id@ != id@) by {
                            if before[j].id@ == id@ {
                                assert(mid[j].id@ == mid[i as int].id@);
                            }
                        }
                        if configured(config, before[j].id@, config.bootstraps@.len() as int, k as int) {
                            if in_allowlist(config, before[j].id@, k as int) {
                                let x = choose|x: int| 0 <= x < k && (#[trigger] config.allowlist@[x])@ == before[j].id@;
                                assert(in_allowlist(config, before[j].id@, k + 1));
                            }
                        }
                        if in_allowlist(config, before[j].id@, k + 1) {
                            let x = choose|x: int| 0 <= x < k + 1 && (#[trigger] config.allowlist@[x])@ == before[j].id@;
                            assert(x != k);
                            assert(in_allowlist(config, before[j].id@, k as int));
                        }
                    } else {
                        assert(in_allowlist(config, after[j].id@, k + 1));
                        if i < before.len() {
                            assert(mid[j] == before[j]);
                        }
                    }
                }
                assert forall|x: int| 0 <= x < k + 1 implies always_allowed(after, (#[trigger] config.allowlist@[x])@) by {
                    if x < k {
                        let y = choose|y: int| 0 <= y < before.len() && (#[trigger] before[y]).id@ == config.allowlist@[x]@;
                        lemma_peer_of(before, m.registry.sessions@, y);
                        assert(mid[y] == before[y]);
                        lemma_peer_of(after, m.registry.sessions@, y);
                        if y != i {
                            assert(after[y] == mid[y]);
                        }
                    } else {
                        lemma_peer_of(after, m.registry.sessions@, i as int);
                    }
                }
            }
            k = k + 1;
        }
        Ok(m)
    }

    /// Index of the peer with `id`, adding a fresh record if none is known.
    pub fn peer_index_or_insert(&mut self, id: &PeerId) -> (r: usize)
        requires
            old(self).wf(),
        ensures
            final(self).wf(),
            r < final(self).registry.peers@.len(),
            final(self).registry.peers@[r as int].id@ == id@,
            final(self).registry.sessions@ == old(self).registry.sessions@,
            final(self).registry.listen@ == old(self).registry.listen@,
            final(self).config == old(self).config,
            final(self).connecting@ == old(self).connecting@,
            has_peer(old(self).registry.peers@, id@) ==> final(self).registry.peers@ == old(self).registry.peers@,
            !has_peer(old(self).registry.peers@, id@) ==> ({
                let p = final(self).registry.peers@[r as int];
                &&& final(self).registry.peers@.drop_last() == old(self).registry.peers@
                &&& r == old(self).registry.peers@.len()
                &&& p.connectedness == Connectedness::NotConnected
                &&& p.session_id == 0
                &&& p.retry.count == 0
                &&& p.multiaddrs@.len() == 0
                &&& p.trust_metric.is_none()
                &&& !p.tags.always_allow && !p.tags.consensus && p.tags.ban_until.is_none()
            }),
    {
        match self.registry.find_peer(id) {
            Some(i) => i,
            None => {
                let p = Peer::new(id.copy());
                let ghost gp = p;
                let ghost before = self.registry.peers@;
                self.registry.add_peer(p);
                proof {
                    assert(self.registry.peers@ == before.push(gp));
                    assert(self.registry.peers@.drop_last() =~= before);
                    assert forall|x: int| 0 <= x < self.registry.peers@.len() implies (#[trigger] self.registry.peers@[x]).retry.count
                        > MAX_RETRY_COUNT ==> self.registry.peers@[x].connectedness == Connectedness::Unconnectable by {
                        if x < before.len() {
                            assert(self.registry.peers@[x] == before[x]);
                        }
                    }
                }
                self.registry.peers.len() - 1
            },
        }
    }
}

/// What the transport reports of a new session.
#[derive(Debug, Clone)]
pub struct SessionContext {
    pub sid: u64,
    pub addr: Multiaddr,
    pub ty: SessionType,
}

/// Why a session was refused.
#[derive(Debug, Clone, Copy, PartialEq, Eq, Structural)]
pub enum RejectReason {
    /// Only allowlisted peers may connect.
    NotAllowed,
    Banned,
    SameIp,
    InboundLimit,
    MaxConnections,
    /// The peer holds a session already, or the session id is in use or zero.
    Duplicate,
}

/// What became of a new session.
#[derive(Debug, Clone, Copy, PartialEq, Eq, Structural)]
pub enum Admission {
    Accept,
    /// Accepted in place of the session with this id, which was closed.
    Replace(u64),
    Reject(RejectReason),
}

/// The kind of an admission, without the replaced session.
#[derive(Debug, Clone, Copy, PartialEq, Eq, Structural)]
pub enum Verdict {
    Accept,
    Replace,
    Reject(RejectReason),
}

pub open spec fn verdict_of(a: Admission) -> Verdict {
    match a {
        Admission::Accept => Verdict::Accept,
        Admission::Replace(_) => Verdict::Replace,
        Admission::Reject(r) => Verdict::Reject(r),
    }
}

/// The record of peer `id`, if known.
pub open spec fn peer_of(peers: Seq<Peer>, id: Seq<u8>) -> Option<Peer> {
    if has_peer(peers, id) {
        Some(peers[choose|i: int| 0 <= i < peers.len() && (#[trigger] peers[i]).id@ == id])
    } else {
        None
    }
}

/// The score of a peer's metric.
pub open spec fn score_of(p: Peer) -> Option<u64> {
    match p.trust_metric {
        Some(m) => m.score_spec(),
        None => None,
    }
}

/// Number of sessions from address `ip`.
pub open spec fn same_ip_count(sessions: Seq<Session>, ip: u32) -> nat
    decreases sessions.len(),
{
    if sessions.len() == 0 {
        0
    } else {
        same_ip_count(sessions.drop_last(), ip) + if sessions.last().addr.ip == ip { 1nat } else { 0nat }
    }
}

/// Seconds a peer must have been connected to be replaced.
pub open spec fn min_replace_alive(c: TrustMetricConfig) -> int {
    20 * c.interval_secs + 20
}

/// Peer `i` may be closed to make room for a newcomer with score `incoming`.
pub open spec fn victim_ok(m: PeerManager, i: int, incoming: u64) -> bool {
    let p = m.registry.peers@[i];
    &&& 0 <= i < m.registry.peers@.len()
    &&& p.connectedness == Connectedness::Connected
    &&& !p.tags.always_allow
    &&& p.alive >= min_replace_alive(m.config.peer_trust_config)
    &&& score_of(p).is_some()
    &&& score_of(p).unwrap() < incoming
}

/// Some connected peer may be closed for a newcomer scoring `incoming`.
pub open spec fn has_victim(m: PeerManager, incoming: u64) -> bool {
    exists|v: int| victim_ok(m, v, incoming)
}

/// The newcomer's score once an expired ban was lifted, which clears its history.
pub open spec fn incoming_score(p: Peer, now: u64) -> Option<u64> {
    if p.tags.ban_until.is_some() && !crate::tags::ban_in_force(p.tags, now) {
        None
    } else {
        score_of(p)
    }
}

/// The admission rule for a new session of peer `pid`, given its record as it
/// stands (a fresh record where the peer is unknown).
pub open spec fn verdict_spec(m: PeerManager, pid: Seq<u8>, ctx: SessionContext, now: u64) -> Verdict {
    verdict_for(m, peer_of(m.registry.peers@, pid), ctx, now)
}

/// The admission rule, given the newcomer's record (`None` for an unknown peer).
pub open spec fn verdict_for(m: PeerManager, known: Option<Peer>, ctx: SessionContext, now: u64) -> Verdict {
    let always = known.is_some() && known.unwrap().tags.always_allow;
    let banned = known.is_some() && crate::tags::ban_in_force(known.unwrap().tags, now);
    let connected = known.is_some() && known.unwrap().connectedness == Connectedness::Connected;
    let sessions = m.registry.sessions@;
    if m.config.allowlist_only && !always {
        Verdict::Reject(RejectReason::NotAllowed)
    } else if banned && !always {
        Verdict::Reject(RejectReason::Banned)
    } else if !always && same_ip_count(sessions, ctx.addr.ip) >= m.config.same_ip_conn_limit {
        Verdict::Reject(RejectReason::SameIp)
    } else if connected || ctx.sid == 0 || crate::registry::has_sid(sessions, ctx.sid) {
        Verdict::Reject(RejectReason::Duplicate)
    } else if always {
        Verdict::Accept
    } else if ctx.ty == SessionType::Inbound {
        if crate::registry::count_type(sessions, SessionType::Inbound) >= m.config.inbound_conn_limit
            || sessions.len() >= m.config.max_connections {
            Verdict::Reject(RejectReason::InboundLimit)
        } else {
            Verdict::Accept
        }
    } else if sessions.len() >= m.config.max_connections {
        let s = if known.is_some() { incoming_score(known.unwrap(), now) } else { None };
        if s.is_some() && s.unwrap() > 0 && has_victim(m, s.unwrap()) {
            Verdict::Replace
        } else {
            Verdict::Reject(RejectReason::MaxConnections)
        }
    } else {
        Verdict::Accept
    }
}

impl PeerManager {
    /// Number of sessions from address `ip`.
    pub fn count_same_ip(&self, ip: u32) -> (r: usize)
        ensures
            r == same_ip_count(self.registry.sessions@, ip),
    {
        let sessions = &self.registry.sessions;
        let mut c: usize = 0;
        let mut j: usize = 0;
        while j < sessions.len()
            invariant
                j <= sessions@.len(),
                c == same_ip_count(sessions@.subrange(0, j as int), ip),
                c <= j,
            decreases sessions@.len() - j,
        {
            assert(sessions@.subrange(0, j + 1).drop_last() =~= sessions@.subrange(0, j as int));
            if sessions[j].addr.ip == ip {
                c = c + 1;
            }
            j = j + 1;
        }
        assert(sessions@.subrange(0, sessions@.len() as int) =~= sessions@);
        c
    }

    /// A connected peer that may be closed for a newcomer scoring `incoming`.
    pub fn find_victim(&self, incoming: u64) -> (r: Option<usize>)
        requires
            self.wf(),
        ensures
            match r {
                Some(v) => victim_ok(*self, v as int, incoming),
                None => forall|v: int| !victim_ok(*self, v, incoming),
            },
    {
        let tc = self.config.peer_trust_config;
        let min_alive: u128 = 20 * (tc.interval_secs as u128) + 20;
        let mut i: usize = 0;
        while i < self.registry.peers.len()
            invariant
                self.wf(),
                min_alive == min_replace_alive(self.config.peer_trust_config),
                i <= self.registry.peers@.len(),
                forall|v: int| 0 <= v < i ==> !victim_ok(*self, v, incoming),
            decreases self.registry.peers@.len() - i,
        {
            let p = &self.registry.peers[i];
            if p.connectedness == Connectedness::Connected && !p.tags.always_allow && p.alive as u128 >= min_alive {
                match p.trust_score() {
                    Some(v) => {
                        if v < incoming {
                            return Some(i);
                        }
                    },
                    None => {},
                }
            }
            i = i + 1;
        }
        None
    }
}

impl View for ConnectingAttempt {
    type V = (Seq<u8>, usize, u64);

    open spec fn view(&self) -> (Seq<u8>, usize, u64) {
        (self.peer@, self.multiaddrs, self.started_at)
    }
}

pub open spec fn attempts_view(s: Seq<ConnectingAttempt>) -> Seq<(Seq<u8>, usize, u64)> {
    s.map_values(|a: ConnectingAttempt| a@)
}

/// `s` without the attempts for peer `id`.
pub open spec fn attempts_without(s: Seq<(Seq<u8>, usize, u64)>, id: Seq<u8>) -> Seq<(Seq<u8>, usize, u64)>
    decreases s.len(),
{
    if s.len() == 0 {
        s
    } else if s.last().0 == id {
        attempts_without(s.drop_last(), id)
    } else {
        attempts_without(s.drop_last(), id).push(s.last())
    }
}

pub open spec fn has_attempt(s: Seq<(Seq<u8>, usize, u64)>, id: Seq<u8>) -> bool {
    exists|k: int| 0 <= k < s.len() && (#[trigger] s[k]).0 == id
}

proof fn lemma_attempts_without(s: Seq<(Seq<u8>, usize, u64)>, id: Seq<u8>)
    ensures
        !has_attempt(attempts_without(s, id), id),
    decreases s.len(),
{
    if s.len() > 0 {
        lemma_attempts_without(s.drop_last(), id);
        let w = attempts_without(s.drop_last(), id);
        if s.last().0 != id {
            if has_attempt(w.push(s.last()), id) {
                let k = choose|k: int| 0 <= k < w.push(s.last()).len() && (#[trigger] w.push(s.last())[k]).0 == id;
                assert(w.push(s.last())[k] == w[k]);
            }
        }
    }
}

impl ConnectingAttempt {
    pub fn new(peer: PeerId, multiaddrs: usize, started_at: u64) -> (r: ConnectingAttempt)
        ensures
            r@ == (peer@, multiaddrs, started_at),
    {
        ConnectingAttempt { peer, multiaddrs, started_at }
    }

    pub fn copy(&self) -> (r: ConnectingAttempt)
        ensures
            r@ == self@,
    {
        ConnectingAttempt { peer: self.peer.copy(), multiaddrs: self.multiaddrs, started_at: self.started_at }
    }
}

impl PeerManager {
    /// Drops the outstanding dials of peer `id`.
    pub fn remove_connecting(&mut self, id: &PeerId)
        requires
            old(self).wf(),
        ensures
            final(self).wf(),
            attempts_view(final(self).connecting@) == attempts_without(attempts_view(old(self).connecting@), id@),
            !has_attempt(attempts_view(final(self).connecting@), id@),
            final(self).registry == old(self).registry,
            final(self).config == old(self).config,
    {
        let ghost all = attempts_view(self.connecting@);
        let mut kept: Vec<ConnectingAttempt> = Vec::new();
        let mut k: usize = 0;
        while k < self.connecting.len()
            invariant
                k <= self.connecting@.len(),
                self.connecting@ == old(self).connecting@,
                all == attempts_view(self.connecting@),
                attempts_view(kept@) == attempts_without(all.subrange(0, k as int), id@),
                self.wf(),
                self.registry == old(self).registry,
                self.config == old(self).config,
            decreases self.connecting@.len() - k,
        {
            assert(all.subrange(0, k + 1).drop_last() =~= all.subrange(0, k as int));
            assert(all.subrange(0, k + 1).last() == self.connecting@[k as int]@);
            if !self.connecting[k].peer.same(id) {
                let ghost k0 = kept@;
                kept.push(self.connecting[k].copy());
                assert(attempts_view(kept@) =~= attempts_view(k0).push(self.connecting@[k as int]@));
            }
            k = k + 1;
        }
        assert(all.subrange(0, all.len() as int) =~= all);
        self.connecting = kept;
        proof {
            lemma_attempts_without(all, id@);
        }
    }
}

impl PeerManager {
    /// Applies the admission rule to a new session of the peer at `i`.
    pub fn decide(&self, i: usize, ctx: &SessionContext, now: u64) -> (r: Admission)
        requires
            self.wf(),
            i < self.registry.peers@.len(),
        ensures
            verdict_of(r) == verdict_for(*self, Some(self.registry.peers@[i as int]), *ctx, now),
            r matches Admission::Replace(vsid) ==> exists|v: int|
                victim_ok(*self, v, incoming_score(self.registry.peers@[i as int], now).unwrap())
                    && (#[trigger] self.registry.peers@[v]).session_id == vsid,
    {
        let p = &self.registry.peers[i];
        let always = p.tags.always_allow;
        let banned = match p.tags.ban_until {
            Some(until) => now < until,
            None => false,
        };
        if self.config.allowlist_only && !always {
            return Admission::Reject(RejectReason::NotAllowed);
        }
        if banned && !always {
            return Admission::Reject(RejectReason::Banned);
        }
        if !always && self.count_same_ip(ctx.addr.ip) >= self.config.same_ip_conn_limit {
            return Admission::Reject(RejectReason::SameIp);
        }
        if p.connectedness == Connectedness::Connected || ctx.sid == 0 || self.registry.find_session(ctx.sid).is_some() {
            return Admission::Reject(RejectReason::Duplicate);
        }
        if always {
            return Admission::Accept;
        }
        let total = self.registry.connected();
        match ctx.ty {
            SessionType::Inbound => {
                let full = self.registry.inbound_count() >= self.config.inbound_conn_limit
                    || total >= self.config.max_connections;
                if full {
                    Admission::Reject(RejectReason::InboundLimit)
                } else {
                    Admission::Accept
                }
            },
            SessionType::Outbound => {
                if total < self.config.max_connections {
                    return Admission::Accept;
                }
                let expired = p.tags.ban_until.is_some() && !banned;
                let incoming = if expired { None } else { p.trust_score() };
                match incoming {
                    Some(s) => {
                        if s == 0 {
                            return Admission::Reject(RejectReason::MaxConnections);
                        }
                        match self.find_victim(s) {
                            Some(v) => {
                                assert(has_victim(*self, s));
                                Admission::Replace(self.registry.peers[v].session_id)
                            },
                            None => {
                                Admission::Reject(RejectReason::MaxConnections)
                            },
                        }
                    },
                    None => {
                        Admission::Reject(RejectReason::MaxConnections)
                    },
                }
            },
        }
    }
}

impl PeerManager {
    /// Gives the peer at `i` a fresh metric where it has none.
    pub fn ensure_metric(&mut self, i: usize)
        requires
            old(self).wf(),
            i < old(self).registry.peers@.len(),
        ensures
            final(self).wf(),
            peer_touched(old(self).registry.peers@, final(self).registry.peers@, final(self).registry.sessions@, i as int),
            final(self).registry.sessions@ == old(self).registry.sessions@,
            final(self).registry.listen@ == old(self).registry.listen@,
            final(self).registry.our_id == old(self).registry.our_id,
            final(self).config == old(self).config,
            final(self).connecting@ == old(self).connecting@,
            ({
                let (p, q) = (old(self).registry.peers@[i as int], final(self).registry.peers@[i as int]);
                &&& q.trust_metric.is_some()
                &&& p.trust_metric.is_some() ==> q.trust_metric == p.trust_metric
                &&& p.trust_metric.is_none() ==> ({
                    let m = q.trust_metric.unwrap();
                    &&& m.config == old(self).config.peer_trust_config
                    &&& m.good == 0 && m.bad == 0 && m.history@.len() == 0 && !m.started
                })
                &&& q.tags == p.tags && q.retry == p.retry && q.multiaddrs == p.multiaddrs
                &&& q.connectedness == p.connectedness && q.session_id == p.session_id
                &&& q.alive == p.alive && q.pubkey == p.pubkey && q.id == p.id
            }),
    {
        if self.registry.peers[i].trust_metric.is_none() {
            let ghost before = self.registry.peers@;
            let m = TrustMetric::new(self.config.peer_trust_config);
            self.registry.peers[i].trust_metric = Some(m);
            proof {
                lemma_peer_touched(before, self.registry.peers@, self.registry.sessions@, i as int);
            }
        }
    }

    /// Adds one bad event to the metric of the peer at `i`, creating the metric
    /// where it has none.
    pub fn add_bad_events(&mut self, i: usize, n: u64)
        requires
            old(self).wf(),
            i < old(self).registry.peers@.len(),
        ensures
            final(self).wf(),
            peer_touched(old(self).registry.peers@, final(self).registry.peers@, final(self).registry.sessions@, i as int),
            final(self).registry.sessions@ == old(self).registry.sessions@,
            final(self).registry.listen@ == old(self).registry.listen@,
            final(self).registry.our_id == old(self).registry.our_id,
            final(self).config == old(self).config,
            final(self).connecting@ == old(self).connecting@,
            ({
                let (p, q) = (old(self).registry.peers@[i as int], final(self).registry.peers@[i as int]);
                let m = q.trust_metric.unwrap();
                &&& q.trust_metric.is_some()
                &&& p.trust_metric.is_some() ==> m.bad == crate::tags::sat_add(p.trust_metric.unwrap().bad, n)
                    && m.good == p.trust_metric.unwrap().good && m.history@ == p.trust_metric.unwrap().history@
                    && m.started == p.trust_metric.unwrap().started && m.config == p.trust_metric.unwrap().config
                &&& p.trust_metric.is_none() ==> m.bad == n && m.good == 0 && m.history@.len() == 0 && !m.started
                &&& q.tags == p.tags && q.retry == p.retry && q.multiaddrs == p.multiaddrs
                &&& q.connectedness == p.connectedness && q.session_id == p.session_id
            }),
    {
        self.ensure_metric(i);
        let ghost before = self.registry.peers@;
        match &mut self.registry.peers[i].trust_metric {
            Some(m) => m.bad_events(n),
            None => {},
        }
        proof {
            lemma_peer_touched(before, self.registry.peers@, self.registry.sessions@, i as int);
        }
    }
}

/// The peer `id` is known and holds `AlwaysAllow`.
pub open spec fn always_allowed(peers: Seq<Peer>, id: Seq<u8>) -> bool {
    peer_of(peers, id).is_some() && peer_of(peers, id).unwrap().tags.always_allow
}

/// With one record per id, the record of the id at `i` is the one at `i`.
pub proof fn lemma_peer_of(peers: Seq<Peer>, sessions: Seq<Session>, i: int)
    requires
        links_hold(peers, sessions),
        0 <= i < peers.len(),
    ensures
        peer_of(peers, peers[i].id@) == Some(peers[i]),
{
    assert(has_peer(peers, peers[i].id@));
    let c = choose|c: int| 0 <= c < peers.len() && (#[trigger] peers[c]).id@ == peers[i].id@;
    if c != i {
        assert(peers[c].id@ != peers[i].id@);
    }
}

impl PeerManager {
    /// Opens the session of `ctx` for the peer at `i`, records its key where
    /// `key_id` matches, and starts its metric.
    fn accept(&mut self, i: usize, pubkey: Vec<u8>, key_id: &PeerId, ctx: &SessionContext, now: u64)
        requires
            old(self).wf(),
            i < old(self).registry.peers@.len(),
            old(self).registry.peers@[i as int].connectedness != Connectedness::Connected,
            ctx.sid != 0,
            !crate::registry::has_sid(old(self).registry.sessions@, ctx.sid),
        ensures
            final(self).wf(),
            final(self).config == old(self).config,
            final(self).connecting@ == old(self).connecting@,
            final(self).registry.listen@ == old(self).registry.listen@,
            final(self).registry.peers@.len() == old(self).registry.peers@.len(),
            final(self).registry.sessions@.drop_last() == old(self).registry.sessions@,
            final(self).registry.sessions@.len() == old(self).registry.sessions@.len() + 1,
            final(self).registry.sessions@.last().sid == ctx.sid,
            final(self).registry.sessions@.last().peer@ == old(self).registry.peers@[i as int].id@,
            final(self).registry.sessions@.last().addr@ == ctx.addr@,
            final(self).registry.sessions@.last().ty == ctx.ty,
            forall|k: int| 0 <= k < old(self).registry.peers@.len() && k != i ==> final(self).registry.peers@[k] == old(self).registry.peers@[k],
            ({
                let (p, q) = (old(self).registry.peers@[i as int], final(self).registry.peers@[i as int]);
                &&& q.id@ == p.id@
                &&& q.connectedness == Connectedness::Connected
                &&& q.session_id == ctx.sid
                &&& q.retry.count == 0
                &&& q.trust_metric.is_some() && q.trust_metric.unwrap().started
                &&& q.tags == p.tags
                &&& q.multiaddrs == p.multiaddrs
                &&& key_id@ == p.id@ ==> q.pubkey.is_some() && q.pubkey.unwrap()@ == pubkey@
            }),
    {
        let addr = ctx.addr.copy();
        self.registry.open_session(i, ctx.sid, addr, ctx.ty, now);
        proof {
            assert forall|x: int| 0 <= x < self.registry.peers@.len() implies (#[trigger] self.registry.peers@[x]).retry.count
                > MAX_RETRY_COUNT ==> self.registry.peers@[x].connectedness == Connectedness::Unconnectable by {
                if x != i {
                    assert(self.registry.peers@[x] == old(self).registry.peers@[x]);
                }
            }
        }
        let ghost before = self.registry.peers@;
        let _ = self.registry.peers[i].set_pubkey(pubkey, key_id);
        proof {
            lemma_peer_touched(before, self.registry.peers@, self.registry.sessions@, i as int);
        }
        self.ensure_metric(i);
        let ghost before2 = self.registry.peers@;
        match &mut self.registry.peers[i].trust_metric {
            Some(m) => m.start(now),
            None => {},
        }
        proof {
            lemma_peer_touched(before2, self.registry.peers@, self.registry.sessions@, i as int);
        }
    }
}

/// The session id a replacement closed, if the admission was one.
pub open spec fn replaced_sid(a: Admission) -> Option<u64> {
    match a {
        Admission::Replace(v) => Some(v),
        _ => None,
    }
}

/// Tags after the ban check at `now`: a ban that ran out is lifted.
pub open spec fn checked_tags(t: crate::tags::Tags, now: u64) -> crate::tags::Tags {
    if t.ban_until.is_some() && !crate::tags::ban_in_force(t, now) {
        crate::tags::tags_remove(t, TagKind::Ban)
    } else {
        t
    }
}

/// The tags of peer `id` before an event: its record's, or none for an unknown peer.
pub open spec fn known_tags(peers: Seq<Peer>, id: Seq<u8>) -> crate::tags::Tags {
    if has_peer(peers, id) {
        peer_of(peers, id).unwrap().tags
    } else {
        crate::tags::Tags { always_allow: false, consensus: false, ban_until: None }
    }
}

/// The verdict admits the session.
pub open spec fn admitted(v: Verdict) -> bool {
    v == Verdict::Accept || v == Verdict::Replace
}

impl PeerManager {
    /// A transport session of peer `pid` completed its handshake. `key_id` is
    /// the id that `pubkey` hashes to. Decides admission, answers a refusal or
    /// a replacement with `Disconnect`, drops the peer's outstanding dials, and
    /// keeps only dialable addresses: an inbound address is removed, an
    /// outbound one is stored with its failures reset.
    #[verifier::spinoff_prover]
    #[verifier::rlimit(60)]
    pub fn new_session(
        &mut self,
        pid: &PeerId,
        pubkey: Vec<u8>,
        key_id: &PeerId,
        ctx: SessionContext,
        now: u64,
        out: &mut Vec<ConnectionEvent>,
    ) -> (r: Admission)
        requires
            old(self).wf(),
        ensures
            final(self).wf(),
            verdict_of(r) == verdict_spec(*old(self), pid@, ctx, now),
            final(self).config == old(self).config,
            final(self).registry.listen@ == old(self).registry.listen@,
            has_peer(final(self).registry.peers@, pid@),
            !has_attempt(attempts_view(final(self).connecting@), pid@),
            r matches Admission::Reject(_) ==> final(self).registry.sessions@ == old(self).registry.sessions@
                && final(out)@ == old(out)@.push(ConnectionEvent::Disconnect(ctx.sid)),
            r == Admission::Reject(RejectReason::SameIp) ==> peer_of(final(self).registry.peers@, pid@).unwrap().tags.ban_until
                == Some(crate::tags::sat_add(now, SAME_IP_LIMIT_BAN)),
            r == Admission::Accept ==> final(self).registry.sessions@.drop_last() == old(self).registry.sessions@
                && final(out)@ == old(out)@,
            r matches Admission::Replace(vsid) ==> crate::registry::has_sid(old(self).registry.sessions@, vsid)
                && !crate::registry::has_sid(final(self).registry.sessions@, vsid)
                && final(self).registry.sessions@.len() == old(self).registry.sessions@.len()
                && final(out)@ == old(out)@.push(ConnectionEvent::Disconnect(vsid)),
            admitted(verdict_of(r)) ==> ({
                let q = peer_of(final(self).registry.peers@, pid@).unwrap();
                let last = final(self).registry.sessions@.last();
                &&& last.sid == ctx.sid && last.peer@ == pid@ && last.addr@ == ctx.addr@ && last.ty == ctx.ty
                &&& q.connectedness == Connectedness::Connected
                &&& q.session_id == ctx.sid
                &&& q.retry.count == 0
                &&& q.trust_metric.is_some() && q.trust_metric.unwrap().started
                &&& key_id@ == pid@ ==> q.pubkey.is_some() && q.pubkey.unwrap()@ == pubkey@
            }),
            ctx.ty == SessionType::Inbound ==> !crate::addr::addr_in(
                peer_of(final(self).registry.peers@, pid@).unwrap().multiaddrs@,
                crate::addr::with_id(ctx.addr@, pid@),
            ),
            ctx.ty == SessionType::Outbound && admitted(verdict_of(r)) ==> peer_of(final(self).registry.peers@, pid@).unwrap().multiaddrs@.contains(
                (crate::addr::with_id(ctx.addr@, pid@), 0u32),
            ),
            // records other than the newcomer's and the replaced one's stay as they were
            final(self).registry.peers@.len() == old(self).registry.peers@.len() + if has_peer(
                old(self).registry.peers@,
                pid@,
            ) {
                0int
            } else {
                1int
            },
            forall|j: int|
                0 <= j < old(self).registry.peers@.len() && (#[trigger] old(self).registry.peers@[j]).id@ != pid@
                    && !(replaced_sid(r) == Some(old(self).registry.peers@[j].session_id)
                    && old(self).registry.peers@[j].connectedness == Connectedness::Connected)
                    ==> final(self).registry.peers@[j] == old(self).registry.peers@[j],
            // the newcomer keeps its tags, but for an expired ban lifted and the same-IP ban
            peer_of(final(self).registry.peers@, pid@).unwrap().tags == if r == Admission::Reject(RejectReason::SameIp) {
                crate::tags::tags_insert(
                    checked_tags(known_tags(old(self).registry.peers@, pid@), now),
                    crate::tags::Tag::Ban { until: crate::tags::sat_add(now, SAME_IP_LIMIT_BAN) },
                )
            } else {
                checked_tags(known_tags(old(self).registry.peers@, pid@), now)
            },
            // a refused newcomer keeps its connection state and retries
            r matches Admission::Reject(_) && has_peer(old(self).registry.peers@, pid@) ==> ({
                let (p, q) = (peer_of(old(self).registry.peers@, pid@).unwrap(), peer_of(final(self).registry.peers@, pid@).unwrap());
                &&& q.session_id == p.session_id && q.connectedness == p.connectedness && q.retry == p.retry
                &&& q.pubkey == p.pubkey
                &&& (p.tags.ban_until.is_none() || crate::tags::ban_in_force(p.tags, now)) ==> q.trust_metric == p.trust_metric
            }),
            r matches Admission::Reject(_) && !has_peer(old(self).registry.peers@, pid@) ==> ({
                let q = peer_of(final(self).registry.peers@, pid@).unwrap();
                &&& q.session_id == 0 && q.connectedness == Connectedness::NotConnected && q.retry.count == 0
                &&& q.trust_metric.is_none()
            }),
            // the connection limit holds for every admission that is not a replacement
            r == Admission::Accept && !always_allowed(old(self).registry.peers@, pid@)
                ==> final(self).registry.sessions@.len() <= final(self).config.max_connections,
            // the inbound limit holds for every admitted inbound peer without AlwaysAllow
            r == Admission::Accept && ctx.ty == SessionType::Inbound && !always_allowed(old(self).registry.peers@, pid@)
                ==> crate::registry::count_type(final(self).registry.sessions@, SessionType::Inbound)
                <= final(self).config.inbound_conn_limit,
    {
        let ghost s0 = *self;
        let i = self.peer_index_or_insert(pid);
        let ghost s1 = *self;
        proof {
            lemma_peer_of(s1.registry.peers@, s1.registry.sessions@, i as int);
            if has_peer(s0.registry.peers@, pid@) {
                assert forall|v: int, x: u64| victim_ok(s1, v, x) == victim_ok(s0, v, x) by {}
                assert forall|x: u64| has_victim(s1, x) == has_victim(s0, x) by {
                    if has_victim(s1, x) {
                        let v = choose|v: int| victim_ok(s1, v, x);
                        assert(victim_ok(s0, v, x));
                    }
                    if has_victim(s0, x) {
                        let v = choose|v: int| victim_ok(s0, v, x);
                        assert(victim_ok(s1, v, x));
                    }
                }
            }
        }
        let d = self.decide(i, &ctx, now);
        assert(verdict_of(d) == verdict_spec(s0, pid@, ctx, now));
        let ghost before = self.registry.peers@;
        let _ = self.registry.peers[i].banned(now);
        proof {
            lemma_peer_touched(before, self.registry.peers@, self.registry.sessions@, i as int);
        }
        let ghost s2 = *self;
        let ghost mut victim: int = -1;
        match d {
            Admission::Reject(reason) => {
                if reason == RejectReason::SameIp {
                    let ghost before = self.registry.peers@;
                    self.registry.peers[i].tags.insert_ban(now, SAME_IP_LIMIT_BAN);
                    proof {
                        lemma_peer_touched(before, self.registry.peers@, self.registry.sessions@, i as int);
                    }
                }
                out.push(ConnectionEvent::Disconnect(ctx.sid));
            },
            Admission::Replace(vsid) => {
                proof {
                    let v = choose|v: int|
                        victim_ok(s1, v, incoming_score(s1.registry.peers@[i as int], now).unwrap())
                            && (#[trigger] s1.registry.peers@[v]).session_id == vsid;
                    let id = s1.registry.peers@[v].id@;
                    assert(has_session_of(s1.registry.sessions@, id));
                    let j = choose|j: int| 0 <= j < s1.registry.sessions@.len() && (#[trigger] s1.registry.sessions@[j]).peer@ == id;
                    assert(s1.registry.sessions@[j].sid == vsid);
                    assert(crate::registry::has_sid(s1.registry.sessions@, vsid));
                }
                let vi = self.registry.remove_session(vsid, now);
                proof {
                    let k = vi.unwrap() as int;
                    victim = k;
                    assert(k != i);
                    assert forall|x: int| 0 <= x < self.registry.peers@.len() implies (#[trigger] self.registry.peers@[x]).retry.count
                        > MAX_RETRY_COUNT ==> self.registry.peers@[x].connectedness == Connectedness::Unconnectable by {
                        if x != k {
                            assert(self.registry.peers@[x] == s2.registry.peers@[x]);
                        }
                    }
                    if crate::registry::has_sid(self.registry.sessions@, ctx.sid) {
                        let j = choose|j: int| 0 <= j < self.registry.sessions@.len() && (#[trigger] self.registry.sessions@[j]).sid == ctx.sid;
                        let sj = self.registry.sessions@[j];
                        assert(self.registry.sessions@.contains(sj));
                        assert(s2.registry.sessions@.contains(sj));
                    }
                }
                out.push(ConnectionEvent::Disconnect(vsid));
                self.accept(i, pubkey, key_id, &ctx, now);
            },
            Admission::Accept => {
                self.accept(i, pubkey, key_id, &ctx, now);
            },
        }
        let ghost s3 = *self;
        self.remove_connecting(pid);
        let ghost before3 = self.registry.peers@;
        match ctx.ty {
            SessionType::Inbound => {
                self.registry.peers[i].multiaddrs.remove(&ctx.addr);
            },
            SessionType::Outbound => {
                if d != Admission::Reject(RejectReason::NotAllowed) && !(d matches Admission::Reject(_)) {
                    let ghost a = crate::addr::with_id(ctx.addr@, pid@);
                    let ghost m0 = self.registry.peers@[i as int].multiaddrs@;
                    self.registry.peers[i].multiaddrs.insert(&ctx.addr);
                    let ghost m1 = self.registry.peers@[i as int].multiaddrs@;
                    proof {
                        if !crate::addr::addr_in(m0, a) {
                            assert(m1[m0.len() as int].0 == a);
                        }
                        assert(crate::addr::addr_in(m1, a));
                    }
                    self.registry.peers[i].multiaddrs.reset_failure(&ctx.addr);
                    proof {
                        let m2 = self.registry.peers@[i as int].multiaddrs@;
                        let k = choose|k: int| 0 <= k < m1.len() && m1[k].0 == a;
                        assert(m2[k] == (a, 0u32));
                        assert(m2.contains((a, 0u32)));
                    }
                }
            },
        }
        proof {
            lemma_peer_touched(before3, self.registry.peers@, self.registry.sessions@, i as int);
            lemma_peer_of(self.registry.peers@, self.registry.sessions@, i as int);
            crate::registry::lemma_count_total(s0.registry.sessions@);
            let fin = self.registry.peers@;
            if has_peer(s0.registry.peers@, pid@) {
                lemma_peer_of(s0.registry.peers@, s0.registry.sessions@, i as int);
            } else {
                assert(s1.registry.peers@.drop_last() == s0.registry.peers@);
            }
            assert forall|j: int|
                0 <= j < s0.registry.peers@.len() && (#[trigger] s0.registry.peers@[j]).id@ != pid@
                    && !(replaced_sid(d) == Some(s0.registry.peers@[j].session_id)
                    && s0.registry.peers@[j].connectedness == Connectedness::Connected)
                implies fin[j] == s0.registry.peers@[j] by {
                assert(s1.registry.peers@[j] == s0.registry.peers@[j]);
                assert(j != i);
                assert(s2.registry.peers@[j] == s1.registry.peers@[j]);
                if victim >= 0 {
                    assert(j != victim);
                }
                assert(s3.registry.peers@[j] == s2.registry.peers@[j]);
                assert(fin[j] == before3[j]);
            }
        }
        d
    }
}

/// What a failed session reports.
#[derive(Debug, Clone, Copy, PartialEq, Eq, Structural)]
pub enum SessionErrorKind {
    Io,
    Protocol,
    Unexpected,
}

/// Why a dial failed.
#[derive(Debug, Clone, Copy, PartialEq, Eq, Structural)]
pub enum ConnectionErrorKind {
    Io,
    DNSResolver,
    PeerIdNotMatch,
    SecioHandshake,
    ProtocolHandle,
}

/// Misbehaviour reported by a protocol.
#[derive(Debug, Clone, Copy, PartialEq, Eq, Structural)]
pub enum MisbehaviorKind {
    PingTimeout,
    PingUnexpect,
    Discovery,
}

/// The peer at `i` is unchanged but for the fields a handler states.
pub open spec fn others_kept(a: Seq<Peer>, b: Seq<Peer>, i: int) -> bool {
    &&& a.len() == b.len()
    &&& forall|k: int| 0 <= k < a.len() && k != i ==> b[k] == a[k]
}

impl PeerManager {
    /// Closes the session of the peer at `i`, if it holds one, and reports it.
    pub fn disconnect_index(&mut self, i: usize, now: u64, out: &mut Vec<ConnectionEvent>)
        requires
            old(self).wf(),
            i < old(self).registry.peers@.len(),
        ensures
            final(self).wf(),
            final(self).config == old(self).config,
            final(self).connecting@ == old(self).connecting@,
            final(self).registry.listen@ == old(self).registry.listen@,
            others_kept(old(self).registry.peers@, final(self).registry.peers@, i as int),
            ({
                let (p, q) = (old(self).registry.peers@[i as int], final(self).registry.peers@[i as int]);
                &&& q.id == p.id && q.tags == p.tags && q.retry == p.retry && q.trust_metric == p.trust_metric
                &&& q.multiaddrs == p.multiaddrs
                &&& q.connectedness != Connectedness::Connected
                &&& p.connectedness == Connectedness::Connected ==> q.connectedness == Connectedness::CanConnect
                    && final(out)@ == old(out)@.push(ConnectionEvent::Disconnect(p.session_id))
                    && !crate::registry::has_sid(final(self).registry.sessions@, p.session_id)
                    && final(self).registry.sessions@.len() + 1 == old(self).registry.sessions@.len()
                &&& p.connectedness != Connectedness::Connected ==> q == p && final(out)@ == old(out)@
                    && final(self).registry.sessions@ == old(self).registry.sessions@
            }),
    {
        if self.registry.peers[i].connectedness == Connectedness::Connected {
            let ghost s0 = *self;
            let sid = self.registry.peers[i].session_id;
            proof {
                let id = s0.registry.peers@[i as int].id@;
                assert(has_session_of(s0.registry.sessions@, id));
                let j = choose|j: int| 0 <= j < s0.registry.sessions@.len() && (#[trigger] s0.registry.sessions@[j]).peer@ == id;
                assert(s0.registry.sessions@[j].sid == sid);
                assert(crate::registry::has_sid(s0.registry.sessions@, sid));
            }
            let k = self.registry.remove_session(sid, now);
            proof {
                let k = k.unwrap() as int;
                if k != i {
                    assert(s0.registry.peers@[k].session_id == sid);
                    let id = s0.registry.peers@[i as int].id@;
                    let jj = choose|jj: int| 0 <= jj < s0.registry.sessions@.len() && (#[trigger] s0.registry.sessions@[jj]).peer@ == id;
                    assert(s0.registry.sessions@[jj].sid == sid);
                    let idk = s0.registry.peers@[k].id@;
                    assert(has_session_of(s0.registry.sessions@, idk));
                    let jk = choose|jk: int| 0 <= jk < s0.registry.sessions@.len() && (#[trigger] s0.registry.sessions@[jk]).peer@ == idk;
                    assert(s0.registry.sessions@[jk].sid == sid);
                    assert(jk == jj);
                    assert(false);
                }
                assert forall|x: int| 0 <= x < self.registry.peers@.len() implies (#[trigger] self.registry.peers@[x]).retry.count
                    > MAX_RETRY_COUNT ==> self.registry.peers@[x].connectedness == Connectedness::Unconnectable by {
                    if x != i {
                        assert(self.registry.peers@[x] == s0.registry.peers@[x]);
                    }
                }
            }
            out.push(ConnectionEvent::Disconnect(sid));
        }
    }

    /// Gives up the peer at `i`, which holds no session.
    pub fn give_up_index(&mut self, i: usize)
        requires
            old(self).wf(),
            i < old(self).registry.peers@.len(),
            old(self).registry.peers@[i as int].connectedness != Connectedness::Connected,
        ensures
            final(self).wf(),
            final(self).config == old(self).config,
            final(self).connecting@ == old(self).connecting@,
            final(self).registry.listen@ == old(self).registry.listen@,
            final(self).registry.sessions@ == old(self).registry.sessions@,
            others_kept(old(self).registry.peers@, final(self).registry.peers@, i as int),
            ({
                let (p, q) = (old(self).registry.peers@[i as int], final(self).registry.peers@[i as int]);
                &&& q.id == p.id && q.tags == p.tags && q.retry == p.retry && q.trust_metric == p.trust_metric
                &&& q.multiaddrs == p.multiaddrs && q.session_id == p.session_id && q.alive == p.alive
                &&& q.connectedness == Connectedness::Unconnectable
            }),
    {
        let ghost before = self.registry.peers@;
        self.registry.peers[i].set_connectedness(Connectedness::Unconnectable);
        proof {
            lemma_peer_touched(before, self.registry.peers@, self.registry.sessions@, i as int);
        }
    }

    /// One more failed attempt on the peer at `i`, which holds no session; the
    /// peer is given up once its retries exceed `MAX_RETRY_COUNT`.
    pub fn inc_retry_index(&mut self, i: usize)
        requires
            old(self).wf(),
            i < old(self).registry.peers@.len(),
            old(self).registry.peers@[i as int].connectedness != Connectedness::Connected,
        ensures
            final(self).wf(),
            final(self).config == old(self).config,
            final(self).connecting@ == old(self).connecting@,
            final(self).registry.listen@ == old(self).registry.listen@,
            final(self).registry.sessions@ == old(self).registry.sessions@,
            others_kept(old(self).registry.peers@, final(self).registry.peers@, i as int),
            ({
                let (p, q) = (old(self).registry.peers@[i as int], final(self).registry.peers@[i as int]);
                &&& q.id == p.id && q.tags == p.tags && q.trust_metric == p.trust_metric
                &&& q.multiaddrs == p.multiaddrs && q.session_id == p.session_id
                &&& q.retry.count == crate::addr::inc_sat(p.retry.count) && q.retry.next_at == p.retry.next_at
                &&& q.connectedness == if q.retry.count > MAX_RETRY_COUNT {
                    Connectedness::Unconnectable
                } else {
                    p.connectedness
                }
            }),
    {
        let ghost before = self.registry.peers@;
        self.registry.peers[i].retry.inc();
        if self.registry.peers[i].retry.count > MAX_RETRY_COUNT {
            self.registry.peers[i].connectedness = Connectedness::Unconnectable;
        }
        proof {
            lemma_peer_touched(before, self.registry.peers@, self.registry.sessions@, i as int);
        }
    }

    /// Pauses the metric of the peer at `i`, creating a paused one where it has none.
    pub fn pause_metric(&mut self, i: usize)
        requires
            old(self).wf(),
            i < old(self).registry.peers@.len(),
        ensures
            final(self).wf(),
            final(self).config == old(self).config,
            final(self).connecting@ == old(self).connecting@,
            final(self).registry.listen@ == old(self).registry.listen@,
            final(self).registry.sessions@ == old(self).registry.sessions@,
            others_kept(old(self).registry.peers@, final(self).registry.peers@, i as int),
            ({
                let (p, q) = (old(self).registry.peers@[i as int], final(self).registry.peers@[i as int]);
                &&& q.id == p.id && q.tags == p.tags && q.retry == p.retry && q.multiaddrs == p.multiaddrs
                &&& q.connectedness == p.connectedness && q.session_id == p.session_id
                &&& q.trust_metric.is_some() && !q.trust_metric.unwrap().started
                &&& p.trust_metric.is_some() ==> q.trust_metric.unwrap().history@ == p.trust_metric.unwrap().history@
                    && q.trust_metric.unwrap().good == p.trust_metric.unwrap().good
                    && q.trust_metric.unwrap().bad == p.trust_metric.unwrap().bad
            }),
    {
        self.ensure_metric(i);
        let ghost before = self.registry.peers@;
        match &mut self.registry.peers[i].trust_metric {
            Some(m) => m.pause(),
            None => {},
        }
        proof {
            lemma_peer_touched(before, self.registry.peers@, self.registry.sessions@, i as int);
        }
    }
}

/// The larger of the next retry count and the count whose back-off covers
/// `REPEATED_CONNECTION_TIMEOUT`.
pub open spec fn short_session_count(count: u32) -> u32 {
    if crate::addr::inc_sat(count) > SHORT_SESSION_RETRY {
        crate::addr::inc_sat(count)
    } else {
        SHORT_SESSION_RETRY
    }
}

impl PeerManager {
    /// Schedules the next dial of the peer at `i`, which holds no session,
    /// after it disconnected at `now`: a short session counts as a failure with
    /// back-off of at least `REPEATED_CONNECTION_TIMEOUT`; a longer one waits
    /// `jitter` seconds, taken modulo `MAX_RANDOM_NEXT_RETRY + 1`.
    pub fn schedule_retry(&mut self, i: usize, now: u64, jitter: u64)
        requires
            old(self).wf(),
            i < old(self).registry.peers@.len(),
            old(self).registry.peers@[i as int].connectedness != Connectedness::Connected,
        ensures
            final(self).wf(),
            final(self).config == old(self).config,
            final(self).connecting@ == old(self).connecting@,
            final(self).registry.listen@ == old(self).registry.listen@,
            final(self).registry.sessions@ == old(self).registry.sessions@,
            others_kept(old(self).registry.peers@, final(self).registry.peers@, i as int),
            ({
                let (p, q) = (old(self).registry.peers@[i as int], final(self).registry.peers@[i as int]);
                &&& q.id == p.id && q.tags == p.tags && q.trust_metric == p.trust_metric
                &&& q.multiaddrs == p.multiaddrs && q.session_id == p.session_id && q.alive == p.alive
                &&& p.alive < SHORT_ALIVE_SESSION ==> q.retry.count == short_session_count(p.retry.count)
                    && crate::tags::backoff(q.retry.count) >= REPEATED_CONNECTION_TIMEOUT
                    && q.retry.next_at == crate::tags::sat_add(now, crate::tags::backoff(q.retry.count))
                    && q.connectedness == (if q.retry.count > MAX_RETRY_COUNT {
                        Connectedness::Unconnectable
                    } else {
                        p.connectedness
                    })
                &&& p.alive >= SHORT_ALIVE_SESSION ==> q.retry.count == p.retry.count
                    && q.retry.next_at == crate::tags::sat_add(now, (jitter as int % (MAX_RANDOM_NEXT_RETRY as int + 1)) as u64)
                    && q.connectedness == p.connectedness
            }),
    {
        let ghost before = self.registry.peers@;
        if self.registry.peers[i].alive < SHORT_ALIVE_SESSION {
            let c = self.registry.peers[i].retry.count;
            let next: u32 = if c < u32::MAX { c + 1 } else { c };
            let count: u32 = if next > SHORT_SESSION_RETRY { next } else { SHORT_SESSION_RETRY };
            self.registry.peers[i].retry.set(count);
            if count > MAX_RETRY_COUNT {
                self.registry.peers[i].connectedness = Connectedness::Unconnectable;
            }
            let wait = self.registry.peers[i].retry.eta();
            proof {
                reveal_with_fuel(crate::tags::pow2, 8);
                assert(count >= SHORT_SESSION_RETRY);
                if count < MAX_RETRY_COUNT + 1 {
                    assert(count == 5 || count == 6);
                    assert(crate::tags::pow2(5) == 32);
                    assert(crate::tags::pow2(6) == 64);
                }
                assert(crate::tags::backoff(count) >= REPEATED_CONNECTION_TIMEOUT);
            }
            self.registry.peers[i].retry.next_at = now.saturating_add(wait);
        } else {
            let wait = jitter % (MAX_RANDOM_NEXT_RETRY + 1);
            self.registry.peers[i].retry.next_at = now.saturating_add(wait);
        }
        proof {
            lemma_peer_touched(before, self.registry.peers@, self.registry.sessions@, i as int);
        }
    }

    /// Session `sid` of peer `pid` closed at `now`.
    pub fn session_closed(&mut self, pid: &PeerId, sid: u64, now: u64, jitter: u64)
        requires
            old(self).wf(),
        ensures
            final(self).wf(),
            final(self).config == old(self).config,
            final(self).registry.listen@ == old(self).registry.listen@,
            final(self).connecting@ == old(self).connecting@,
            final(self).registry.peers@.len() == old(self).registry.peers@.len(),
            !crate::registry::has_sid(final(self).registry.sessions@, sid),
            has_peer(old(self).registry.peers@, pid@) && !has_session_of(final(self).registry.sessions@, pid@) ==> ({
                let q = peer_of(final(self).registry.peers@, pid@).unwrap();
                &&& q.connectedness == Connectedness::CanConnect || q.connectedness == Connectedness::Unconnectable
                &&& q.trust_metric.is_some() && !q.trust_metric.unwrap().started
                &&& q.alive < SHORT_ALIVE_SESSION ==> crate::tags::backoff(q.retry.count) >= REPEATED_CONNECTION_TIMEOUT
            }),
    {
        let _ = self.registry.remove_session(sid, now);
        proof {
            assert forall|x: int| 0 <= x < self.registry.peers@.len() implies (#[trigger] self.registry.peers@[x]).retry.count
                > MAX_RETRY_COUNT ==> self.registry.peers@[x].connectedness == Connectedness::Unconnectable by {
                assert(old(self).registry.peers@[x].retry == self.registry.peers@[x].retry);
                if old(self).registry.peers@[x].connectedness == Connectedness::Connected {
                    assert(old(self).registry.peers@[x].retry.count <= MAX_RETRY_COUNT);
                }
            }
        }
        match self.registry.find_peer(pid) {
            None => {},
            Some(i) => {
                if self.registry.peers[i].connectedness != Connectedness::Connected {
                    if self.registry.peers[i].connectedness != Connectedness::Unconnectable {
                        let ghost before = self.registry.peers@;
                        self.registry.peers[i].set_connectedness(Connectedness::CanConnect);
                        proof {
                            lemma_peer_touched(before, self.registry.peers@, self.registry.sessions@, i as int);
                        }
                    }
                    self.pause_metric(i);
                    self.schedule_retry(i, now, jitter);
                    proof {
                        lemma_peer_of(self.registry.peers@, self.registry.sessions@, i as int);
                    }
                } else {
                    proof {
                        assert(has_session_of(self.registry.sessions@, pid@));
                    }
                }
            },
        }
    }
}

/// What a protocol reports of a peer's behaviour.
#[derive(Debug, Clone, PartialEq, Eq)]
pub enum TrustFeedback {
    Good,
    Neutral,
    Bad(String),
    Worse(String),
    Fatal(String),
}

/// The session with id `sid`.
pub open spec fn session_with_sid(sessions: Seq<Session>, sid: u64) -> Session {
    sessions[choose|j: int| 0 <= j < sessions.len() && (#[trigger] sessions[j]).sid == sid]
}

impl PeerManager {
    /// Index of the peer that holds the live session at `j`.
    fn owner_of(&self, j: usize) -> (r: usize)
        requires
            self.wf(),
            j < self.registry.sessions@.len(),
        ensures
            r < self.registry.peers@.len(),
            self.registry.peers@[r as int].id@ == self.registry.sessions@[j as int].peer@,
            self.registry.peers@[r as int].connectedness == Connectedness::Connected,
            self.registry.peers@[r as int].session_id == self.registry.sessions@[j as int].sid,
    {
        proof {
            assert(has_peer(self.registry.peers@, self.registry.sessions@[j as int].peer@));
        }
        let i = self.registry.find_peer(&self.registry.sessions[j].peer);
        match i {
            Some(i) => {
                proof {
                    assert(has_session_of(self.registry.sessions@, self.registry.peers@[i as int].id@));
                }
                i
            },
            None => {
                proof {
                    assert(false);
                }
                0
            },
        }
    }

    /// Session `sid` failed: it is closed and reported, its peer retries later
    /// after an I/O error or is given up after a protocol or unexpected error,
    /// and the peer's metric takes one bad event.
    pub fn session_failed(&mut self, sid: u64, kind: SessionErrorKind, now: u64, out: &mut Vec<ConnectionEvent>)
        requires
            old(self).wf(),
        ensures
            final(self).wf(),
            final(self).config == old(self).config,
            final(self).registry.listen@ == old(self).registry.listen@,
            final(self).connecting@ == old(self).connecting@,
            final(out)@ == old(out)@.push(ConnectionEvent::Disconnect(sid)),
            !crate::registry::has_sid(final(self).registry.sessions@, sid),
            crate::registry::has_sid(old(self).registry.sessions@, sid) ==> ({
                let id = session_with_sid(old(self).registry.sessions@, sid).peer@;
                let p = peer_of(old(self).registry.peers@, id).unwrap();
                let q = peer_of(final(self).registry.peers@, id).unwrap();
                &&& has_peer(final(self).registry.peers@, id)
                &&& kind == SessionErrorKind::Io ==> q.retry.count == crate::addr::inc_sat(p.retry.count)
                    && (q.connectedness == Connectedness::Unconnectable || q.connectedness == Connectedness::CanConnect)
                &&& kind != SessionErrorKind::Io ==> q.connectedness == Connectedness::Unconnectable
                &&& q.trust_metric.is_some()
                &&& p.trust_metric.is_some() ==> q.trust_metric.unwrap().bad == crate::tags::sat_add(p.trust_metric.unwrap().bad, 1)
                &&& p.trust_metric.is_none() ==> q.trust_metric.unwrap().bad == 1 && !q.trust_metric.unwrap().started
            }),
    {
        out.push(ConnectionEvent::Disconnect(sid));
        match self.registry.find_session(sid) {
            None => {},
            Some(j) => {
                let ghost s0 = *self;
                let i = self.owner_of(j);
                proof {
                    lemma_peer_of(s0.registry.peers@, s0.registry.sessions@, i as int);
                    let c = choose|c: int| 0 <= c < s0.registry.sessions@.len() && (#[trigger] s0.registry.sessions@[c]).sid == sid;
                    assert(c == j as int);
                }
                let k = self.registry.remove_session(sid, now);
                proof {
                    let k = k.unwrap() as int;
                    if k != i {
                        assert(s0.registry.peers@[k].session_id == sid);
                        let idk = s0.registry.peers@[k].id@;
                        assert(has_session_of(s0.registry.sessions@, idk));
                        let jk = choose|jk: int| 0 <= jk < s0.registry.sessions@.len() && (#[trigger] s0.registry.sessions@[jk]).peer@ == idk;
                        assert(s0.registry.sessions@[jk].sid == sid);
                        assert(jk == j);
                    }
                    assert forall|x: int| 0 <= x < self.registry.peers@.len() implies (#[trigger] self.registry.peers@[x]).retry.count
                        > MAX_RETRY_COUNT ==> self.registry.peers@[x].connectedness == Connectedness::Unconnectable by {
                        if x != i {
                            assert(self.registry.peers@[x] == s0.registry.peers@[x]);
                        }
                    }
                }
                match kind {
                    SessionErrorKind::Io => self.inc_retry_index(i),
                    _ => self.give_up_index(i),
                }
                self.add_bad_events(i, 1);
                proof {
                    lemma_peer_of(self.registry.peers@, self.registry.sessions@, i as int);
                }
            },
        }
    }

    /// A protocol reports misbehaviour of peer `pid`: one bad event, the
    /// session is closed, and the peer retries later after a ping timeout or
    /// is given up otherwise.
    pub fn misbehave(&mut self, pid: &PeerId, kind: MisbehaviorKind, now: u64, out: &mut Vec<ConnectionEvent>)
        requires
            old(self).wf(),
        ensures
            final(self).wf(),
            final(self).config == old(self).config,
            final(self).registry.listen@ == old(self).registry.listen@,
            final(self).connecting@ == old(self).connecting@,
            !has_peer(old(self).registry.peers@, pid@) ==> final(self).registry == old(self).registry && final(out)@ == old(out)@,
            has_peer(old(self).registry.peers@, pid@) ==> ({
                let p = peer_of(old(self).registry.peers@, pid@).unwrap();
                let q = peer_of(final(self).registry.peers@, pid@).unwrap();
                &&& has_peer(final(self).registry.peers@, pid@)
                &&& !has_session_of(final(self).registry.sessions@, pid@)
                &&& p.connectedness == Connectedness::Connected ==> final(out)@ == old(out)@.push(ConnectionEvent::Disconnect(p.session_id))
                &&& p.connectedness != Connectedness::Connected ==> final(out)@ == old(out)@
                &&& kind == MisbehaviorKind::PingTimeout ==> q.retry.count == crate::addr::inc_sat(p.retry.count)
                &&& kind != MisbehaviorKind::PingTimeout ==> q.connectedness == Connectedness::Unconnectable
                &&& q.trust_metric.is_some()
                &&& p.trust_metric.is_some() ==> q.trust_metric.unwrap().bad == crate::tags::sat_add(p.trust_metric.unwrap().bad, 1)
                &&& p.trust_metric.is_none() ==> q.trust_metric.unwrap().bad == 1
            }),
    {
        match self.registry.find_peer(pid) {
            None => {},
            Some(i) => {
                proof {
                    lemma_peer_of(self.registry.peers@, self.registry.sessions@, i as int);
                }
                self.add_bad_events(i, 1);
                self.disconnect_index(i, now, out);
                match kind {
                    MisbehaviorKind::PingTimeout => self.inc_retry_index(i),
                    _ => self.give_up_index(i),
                }
                proof {
                    lemma_peer_of(self.registry.peers@, self.registry.sessions@, i as int);
                }
            },
        }
    }

    /// The transport blocked session `sid`: it is marked, and its peer's
    /// metric, started if new, takes one bad event.
    pub fn session_blocked(&mut self, sid: u64, now: u64)
        requires
            old(self).wf(),
        ensures
            final(self).wf(),
            final(self).config == old(self).config,
            final(self).registry.listen@ == old(self).registry.listen@,
            final(self).connecting@ == old(self).connecting@,
            final(self).registry.sessions@.len() == old(self).registry.sessions@.len(),
            crate::registry::has_sid(old(self).registry.sessions@, sid) ==> ({
                let id = session_with_sid(old(self).registry.sessions@, sid).peer@;
                let p = peer_of(old(self).registry.peers@, id).unwrap();
                let q = peer_of(final(self).registry.peers@, id).unwrap();
                &&& session_with_sid(final(self).registry.sessions@, sid).blocked
                &&& q.trust_metric.is_some()
                &&& p.trust_metric.is_some() ==> q.trust_metric.unwrap().bad == crate::tags::sat_add(p.trust_metric.unwrap().bad, 1)
                &&& p.trust_metric.is_none() ==> q.trust_metric.unwrap().bad == 1 && q.trust_metric.unwrap().started
            }),
    {
        match self.registry.find_session(sid) {
            None => {},
            Some(j) => {
                let ghost s0 = *self;
                let i = self.owner_of(j);
                proof {
                    lemma_peer_of(s0.registry.peers@, s0.registry.sessions@, i as int);
                    let c = choose|c: int| 0 <= c < s0.registry.sessions@.len() && (#[trigger] s0.registry.sessions@[c]).sid == sid;
                    assert(c == j as int);
                }
                self.registry.set_blocked(j);
                let fresh = self.registry.peers[i].trust_metric.is_none();
                self.ensure_metric(i);
                if fresh {
                    let ghost before = self.registry.peers@;
                    match &mut self.registry.peers[i].trust_metric {
                        Some(m) => m.start(now),
                        None => {},
                    }
                    proof {
                        lemma_peer_touched(before, self.registry.peers@, self.registry.sessions@, i as int);
                    }
                }
                self.add_bad_events(i, 1);
                proof {
                    lemma_peer_of(self.registry.peers@, self.registry.sessions@, i as int);
                    let c = choose|c: int| 0 <= c < self.registry.sessions@.len() && (#[trigger] self.registry.sessions@[c]).sid == sid;
                    assert(self.registry.sessions@[j as int].sid == sid);
                    if c != j {
                        assert(self.registry.sessions@[c] == s0.registry.sessions@[c]);
                    }
                }
            },
        }
    }

    /// Peer `pid` answered a ping at `now`: its alive time is refreshed and its
    /// retries start over.
    pub fn peer_alive(&mut self, pid: &PeerId, now: u64)
        requires
            old(self).wf(),
        ensures
            final(self).wf(),
            final(self).config == old(self).config,
            final(self).registry.sessions@ == old(self).registry.sessions@,
            final(self).registry.listen@ == old(self).registry.listen@,
            final(self).connecting@ == old(self).connecting@,
            has_peer(old(self).registry.peers@, pid@) ==> ({
                let p = peer_of(old(self).registry.peers@, pid@).unwrap();
                let q = peer_of(final(self).registry.peers@, pid@).unwrap();
                &&& q.retry.count == 0
                &&& q.alive == crate::peer::sat_sub(now, p.connected_at)
                &&& q.connectedness == p.connectedness
            }),
            !has_peer(old(self).registry.peers@, pid@) ==> final(self).registry == old(self).registry,
    {
        match self.registry.find_peer(pid) {
            None => {},
            Some(i) => {
                proof {
                    lemma_peer_of(self.registry.peers@, self.registry.sessions@, i as int);
                }
                let ghost before = self.registry.peers@;
                self.registry.peers[i].update_alive(now);
                self.registry.peers[i].retry.reset();
                proof {
                    lemma_peer_touched(before, self.registry.peers@, self.registry.sessions@, i as int);
                    lemma_peer_of(self.registry.peers@, self.registry.sessions@, i as int);
                }
            },
        }
    }
}

/// Ten more bad events bring the peer, which holds no `AlwaysAllow`, a score
/// under the knock-out line.
pub open spec fn worse_knocks_out(p: Peer) -> bool {
    &&& !p.tags.always_allow
    &&& p.trust_metric.is_some()
    &&& ({
        let m = p.trust_metric.unwrap();
        let worse = TrustMetric { bad: crate::tags::sat_add(m.bad, WORSE_BAD_EVENTS), ..m };
        worse.score_spec().is_some() && worse.score_spec().unwrap() < crate::trust::KNOCK_OUT_SCORE
    })
}

impl PeerManager {
    /// Bans the peer at `i` for `dur` seconds from `now`, closes its session
    /// and pauses its metric.
    fn punish(&mut self, i: usize, dur: u64, now: u64, out: &mut Vec<ConnectionEvent>)
        requires
            old(self).wf(),
            i < old(self).registry.peers@.len(),
        ensures
            final(self).wf(),
            final(self).config == old(self).config,
            final(self).registry.listen@ == old(self).registry.listen@,
            final(self).connecting@ == old(self).connecting@,
            others_kept(old(self).registry.peers@, final(self).registry.peers@, i as int),
            ({
                let (p, q) = (old(self).registry.peers@[i as int], final(self).registry.peers@[i as int]);
                &&& q.id == p.id
                &&& q.tags == crate::tags::tags_insert(p.tags, crate::tags::Tag::Ban { until: crate::tags::sat_add(now, dur) })
                &&& q.connectedness != Connectedness::Connected
                &&& q.trust_metric.is_some() && !q.trust_metric.unwrap().started
                &&& p.connectedness == Connectedness::Connected ==> final(out)@ == old(out)@.push(ConnectionEvent::Disconnect(p.session_id))
                &&& p.connectedness != Connectedness::Connected ==> final(out)@ == old(out)@
            }),
    {
        let ghost before = self.registry.peers@;
        self.registry.peers[i].tags.insert_ban(now, dur);
        proof {
            lemma_peer_touched(before, self.registry.peers@, self.registry.sessions@, i as int);
        }
        self.disconnect_index(i, now, out);
        self.pause_metric(i);
    }

    /// A protocol's feedback on peer `pid` at `now`. Good and bad feedback
    /// count one event, worse counts ten bad events and knocks the peer out
    /// (soft ban, disconnect, paused metric) once it has a score under the
    /// knock-out line; fatal feedback bans and disconnects at once. A peer with
    /// `AlwaysAllow` is never banned or disconnected here.
    pub fn trust_feedback(&mut self, pid: &PeerId, feedback: &TrustFeedback, now: u64, out: &mut Vec<ConnectionEvent>)
        requires
            old(self).wf(),
        ensures
            final(self).wf(),
            final(self).config == old(self).config,
            final(self).registry.listen@ == old(self).registry.listen@,
            final(self).connecting@ == old(self).connecting@,
            !has_peer(old(self).registry.peers@, pid@) ==> final(self).registry == old(self).registry && final(out)@ == old(out)@,
            has_peer(old(self).registry.peers@, pid@) ==> ({
                let p = peer_of(old(self).registry.peers@, pid@).unwrap();
                let q = peer_of(final(self).registry.peers@, pid@).unwrap();
                &&& has_peer(final(self).registry.peers@, pid@)
                // a peer with AlwaysAllow keeps its tags, its session and its metric running
                &&& p.tags.always_allow ==> q.tags == p.tags && q.connectedness == p.connectedness
                    && final(self).registry.sessions@ == old(self).registry.sessions@ && final(out)@ == old(out)@
                    && (p.trust_metric.is_some() ==> q.trust_metric.unwrap().started == p.trust_metric.unwrap().started)
                &&& *feedback == TrustFeedback::Good ==> q.trust_metric.is_some()
                    && (p.trust_metric.is_some() ==> q.trust_metric.unwrap().good == crate::tags::sat_add(p.trust_metric.unwrap().good, 1))
                    && (p.trust_metric.is_none() ==> q.trust_metric.unwrap().good == 1)
                &&& *feedback == TrustFeedback::Neutral ==> final(self).registry == old(self).registry && final(out)@ == old(out)@
                &&& feedback is Bad ==> q.trust_metric.is_some()
                    && (p.trust_metric.is_some() ==> q.trust_metric.unwrap().bad == crate::tags::sat_add(p.trust_metric.unwrap().bad, 1))
                    && (p.trust_metric.is_none() ==> q.trust_metric.unwrap().bad == 1)
                &&& feedback is Fatal && !p.tags.always_allow ==> q.tags.ban_until == Some(crate::tags::sat_add(now, old(self).config.peer_fatal_ban))
                    && !has_session_of(final(self).registry.sessions@, pid@)
                    && q.trust_metric.is_some() && !q.trust_metric.unwrap().started
                    && (p.connectedness == Connectedness::Connected ==> final(out)@ == old(out)@.push(ConnectionEvent::Disconnect(p.session_id)))
                &&& feedback is Worse ==> q.trust_metric.is_some()
                &&& feedback is Worse && !worse_knocks_out(p) ==> q.tags == p.tags && q.connectedness == p.connectedness
                    && final(self).registry.sessions@ == old(self).registry.sessions@ && final(out)@ == old(out)@
                    && (p.trust_metric.is_some() ==> q.trust_metric.unwrap().started == p.trust_metric.unwrap().started)
                &&& feedback is Worse && worse_knocks_out(p) ==> q.tags.ban_until == Some(crate::tags::sat_add(now, old(self).config.peer_soft_ban))
                    && !has_session_of(final(self).registry.sessions@, pid@)
                    && !q.trust_metric.unwrap().started
            }),
    {
        let i = match self.registry.find_peer(pid) {
            None => return,
            Some(i) => i,
        };
        proof {
            lemma_peer_of(self.registry.peers@, self.registry.sessions@, i as int);
        }
        let always = self.registry.peers[i].tags.always_allow;
        match feedback {
            TrustFeedback::Good => {
                self.ensure_metric(i);
                let ghost before = self.registry.peers@;
                match &mut self.registry.peers[i].trust_metric {
                    Some(m) => m.good_events(1),
                    None => {},
                }
                proof {
                    lemma_peer_touched(before, self.registry.peers@, self.registry.sessions@, i as int);
                }
            },
            TrustFeedback::Neutral => {},
            TrustFeedback::Bad(_) => {
                self.add_bad_events(i, 1);
            },
            TrustFeedback::Worse(_) => {
                self.add_bad_events(i, WORSE_BAD_EVENTS);
                if !always {
                    let knocked = match self.registry.peers[i].trust_score() {
                        Some(score) => score < crate::trust::KNOCK_OUT_SCORE,
                        None => false,
                    };
                    if knocked {
                        let dur = self.config.peer_soft_ban;
                        self.punish(i, dur, now, out);
                    }
                }
            },
            TrustFeedback::Fatal(_) => {
                if !always {
                    let dur = self.config.peer_fatal_ban;
                    self.punish(i, dur, now, out);
                }
            },
        }
        proof {
            lemma_peer_of(self.registry.peers@, self.registry.sessions@, i as int);
        }
    }
}

impl PeerManager {
    /// Index of the outstanding dial of peer `id`.
    pub fn find_attempt(&self, id: &PeerId) -> (r: Option<usize>)
        ensures
            match r {
                Some(k) => k < self.connecting@.len() && self.connecting@[k as int].peer@ == id@,
                None => !has_attempt(attempts_view(self.connecting@), id@),
            },
    {
        let mut k: usize = 0;
        while k < self.connecting.len()
            invariant
                k <= self.connecting@.len(),
                forall|x: int| 0 <= x < k ==> (#[trigger] self.connecting@[x]).peer@ != id@,
            decreases self.connecting@.len() - k,
        {
            if self.connecting[k].peer.same(id) {
                return Some(k);
            }
            k = k + 1;
        }
        proof {
            if has_attempt(attempts_view(self.connecting@), id@) {
                let x = choose|x: int| 0 <= x < attempts_view(self.connecting@).len() && (#[trigger] attempts_view(self.connecting@)[x]).0 == id@;
                assert(self.connecting@[x].peer@ == id@);
            }
        }
        None
    }

    /// Dialling `addr` failed. I/O and DNS errors count a failure of the
    /// address, a peer-id mismatch retires it, and handshake or protocol
    /// errors give up the peer. A peer left with no dialable address is given
    /// up with its retries past `MAX_RETRY_COUNT`. The dial of the peer loses
    /// one address; once none is left, or the peer was given up, the dial is
    /// dropped, and a peer not given up retries later.
    pub fn connect_failed(&mut self, addr: &Multiaddr, kind: ConnectionErrorKind)
        requires
            old(self).wf(),
        ensures
            final(self).wf(),
            final(self).config == old(self).config,
            final(self).registry.listen@ == old(self).registry.listen@,
            final(self).registry.sessions@ == old(self).registry.sessions@,
            (addr@.2.is_none() || !has_peer(old(self).registry.peers@, addr@.2.unwrap())) ==> final(self).registry
                == old(self).registry && final(self).connecting@ == old(self).connecting@,
            addr@.2.is_some() && has_peer(old(self).registry.peers@, addr@.2.unwrap()) ==> ({
                let id = addr@.2.unwrap();
                let p = peer_of(old(self).registry.peers@, id).unwrap();
                let q = peer_of(final(self).registry.peers@, id).unwrap();
                &&& has_peer(final(self).registry.peers@, id)
                &&& (kind == ConnectionErrorKind::Io || kind == ConnectionErrorKind::DNSResolver) ==> crate::addr::failures_updated(
                    p.multiaddrs@, q.multiaddrs@, addr@, |n: u32| crate::addr::inc_sat(n))
                &&& kind == ConnectionErrorKind::PeerIdNotMatch ==> crate::addr::failures_updated(
                    p.multiaddrs@, q.multiaddrs@, addr@, |n: u32| MAX_RETRY_COUNT)
                &&& (kind == ConnectionErrorKind::SecioHandshake || kind == ConnectionErrorKind::ProtocolHandle)
                    ==> q.multiaddrs@ == p.multiaddrs@
                &&& (kind == ConnectionErrorKind::SecioHandshake || kind == ConnectionErrorKind::ProtocolHandle)
                    && p.connectedness != Connectedness::Connected ==> q.connectedness == Connectedness::Unconnectable
                        && (crate::addr::connectable_count(q.multiaddrs@) > 0 ==> q.retry.count == p.retry.count)
                &&& p.connectedness != Connectedness::Connected && crate::addr::connectable_count(q.multiaddrs@) == 0
                    ==> q.connectedness == Connectedness::Unconnectable && q.retry.count == MAX_RETRY_COUNT + 1
                // the dial ran out of addresses while the peer is not given up: it retries later
                &&& has_attempt(attempts_view(old(self).connecting@), id)
                    && (forall|k: int| 0 <= k < old(self).connecting@.len() && (#[trigger] old(self).connecting@[k]).peer@ == id
                        ==> old(self).connecting@[k].multiaddrs <= 1)
                    && p.connectedness != Connectedness::Connected && p.connectedness != Connectedness::Unconnectable
                    && kind != ConnectionErrorKind::SecioHandshake && kind != ConnectionErrorKind::ProtocolHandle
                    && crate::addr::connectable_count(q.multiaddrs@) > 0
                    ==> !has_attempt(attempts_view(final(self).connecting@), id)
                        && q.retry.count == crate::addr::inc_sat(p.retry.count)
                        && q.connectedness == (if q.retry.count > MAX_RETRY_COUNT {
                            Connectedness::Unconnectable
                        } else {
                            Connectedness::CanConnect
                        })
                &&& q.connectedness == Connectedness::Unconnectable ==> !has_attempt(attempts_view(final(self).connecting@), id)
                &&& p.connectedness == Connectedness::Connected ==> q.connectedness == Connectedness::Connected
                    && q.retry == p.retry
            }),
    {
        let id = match addr.peer_id() {
            None => return,
            Some(id) => id,
        };
        let i = match self.registry.find_peer(&id) {
            None => return,
            Some(i) => i,
        };
        let ghost s0 = *self;
        proof {
            lemma_peer_of(self.registry.peers@, self.registry.sessions@, i as int);
            assert(with_id_same(addr@, id@));
        }
        let ghost before = self.registry.peers@;
        match kind {
            ConnectionErrorKind::Io | ConnectionErrorKind::DNSResolver => {
                self.registry.peers[i].multiaddrs.inc_failure(addr);
            },
            ConnectionErrorKind::PeerIdNotMatch => {
                self.registry.peers[i].multiaddrs.give_up(addr);
            },
            _ => {},
        }
        proof {
            lemma_peer_touched(before, self.registry.peers@, self.registry.sessions@, i as int);
        }
        let connected = self.registry.peers[i].connectedness == Connectedness::Connected;
        if !connected {
            match kind {
                ConnectionErrorKind::SecioHandshake | ConnectionErrorKind::ProtocolHandle => {
                    self.give_up_index(i);
                },
                _ => {},
            }
            if self.registry.peers[i].multiaddrs.connectable_len() == 0 {
                let ghost b2 = self.registry.peers@;
                self.registry.peers[i].retry.set(MAX_RETRY_COUNT + 1);
                self.registry.peers[i].connectedness = Connectedness::Unconnectable;
                proof {
                    lemma_peer_touched(b2, self.registry.peers@, self.registry.sessions@, i as int);
                }
            }
        }
        match self.find_attempt(&id) {
            None => {},
            Some(k) => {
                let left = if self.connecting[k].multiaddrs > 0 { self.connecting[k].multiaddrs - 1 } else { 0 };
                self.connecting[k].multiaddrs = left;
                let gave_up = self.registry.peers[i].connectedness == Connectedness::Unconnectable;
                if gave_up || left == 0 || self.registry.peers[i].multiaddrs.connectable_len() == 0 {
                    self.remove_connecting(&id);
                    if !gave_up && !connected {
                        self.inc_retry_index(i);
                        if self.registry.peers[i].connectedness != Connectedness::Unconnectable {
                            let ghost b3 = self.registry.peers@;
                            self.registry.peers[i].set_connectedness(Connectedness::CanConnect);
                            proof {
                                lemma_peer_touched(b3, self.registry.peers@, self.registry.sessions@, i as int);
                            }
                        }
                    }
                }
            },
        }
        proof {
            lemma_peer_of(self.registry.peers@, self.registry.sessions@, i as int);
        }
    }
}

/// An address that carries `id` is its own form with `id` pushed.
pub open spec fn with_id_same(a: crate::addr::MultiaddrView, id: Seq<u8>) -> bool {
    a.2 == Some(id) ==> crate::addr::with_id(a, id) == a
}

/// A discovered address names a peer other than us.
pub open spec fn discoverable(a: crate::addr::MultiaddrView, our: Seq<u8>) -> bool {
    a.2.is_some() && a.2.unwrap() != our
}

/// Some record of the peer that `a` names holds `a`.
pub open spec fn addr_known(peers: Seq<Peer>, a: crate::addr::MultiaddrView) -> bool {
    exists|j: int|
        0 <= j < peers.len() && Some((#[trigger] peers[j]).id@) == a.2 && crate::addr::addr_in(peers[j].multiaddrs@, a)
}

/// Every discoverable address of `addrs` is held by its peer.
pub open spec fn all_known(peers: Seq<Peer>, addrs: Seq<Multiaddr>, our: Seq<u8>) -> bool {
    forall|k: int| 0 <= k < addrs.len() && discoverable((#[trigger] addrs[k])@, our) ==> addr_known(peers, addrs[k]@)
}

/// Records keep their ids and every address entry, failure count included.
pub open spec fn entries_kept(a: Seq<Peer>, b: Seq<Peer>) -> bool {
    &&& a.len() <= b.len()
    &&& forall|k: int|
        0 <= k < a.len() ==> (#[trigger] b[k]).id@ == a[k].id@ && forall|e: (crate::addr::MultiaddrView, u32)|
            a[k].multiaddrs@.contains(e) ==> b[k].multiaddrs@.contains(e)
}

/// What `discover_multi_addrs` guarantees, from state `m0` to state `m1`.
pub open spec fn discover_post(m0: PeerManager, m1: PeerManager, addrs: Seq<Multiaddr>) -> bool {
    &&& m1.wf()
    &&& m1.config == m0.config
    &&& m1.registry.sessions@ == m0.registry.sessions@
    &&& m1.registry.listen@ == m0.registry.listen@
    &&& m1.connecting@ == m0.connecting@
    &&& all_known(m1.registry.peers@, addrs, m0.config.our_id@)
    &&& entries_kept(m0.registry.peers@, m1.registry.peers@)
    &&& all_known(m0.registry.peers@, addrs, m0.config.our_id@) ==> m1.registry.peers@ == m0.registry.peers@
}

/// Discovering the same addresses twice leaves the peers as discovering them
/// once, failure counts included.
pub proof fn lemma_discover_idempotent(m0: PeerManager, m1: PeerManager, m2: PeerManager, addrs: Seq<Multiaddr>)
    requires
        discover_post(m0, m1, addrs),
        discover_post(m1, m2, addrs),
    ensures
        m2.registry.peers@ == m1.registry.peers@,
        entries_kept(m0.registry.peers@, m2.registry.peers@),
{
}

impl PeerManager {
    /// Addresses learnt from discovery: each that names a peer other than us
    /// is added to that peer, which is created where unknown. Existing entries
    /// keep their failure counts.
    pub fn discover_multi_addrs(&mut self, addrs: &Vec<Multiaddr>)
        requires
            old(self).wf(),
        ensures
            discover_post(*old(self), *final(self), addrs@),
    {
        let ghost s0 = *self;
        let mut x: usize = 0;
        while x < addrs.len()
            invariant
                self.wf(),
                s0 == *old(self),
                self.config == s0.config,
                self.registry.sessions@ == s0.registry.sessions@,
                self.registry.listen@ == s0.registry.listen@,
                self.connecting@ == s0.connecting@,
                x <= addrs@.len(),
                entries_kept(s0.registry.peers@, self.registry.peers@),
                forall|k: int| 0 <= k < x && discoverable((#[trigger] addrs@[k])@, s0.config.our_id@) ==> addr_known(self.registry.peers@, addrs@[k]@),
                all_known(s0.registry.peers@, addrs@, s0.config.our_id@) ==> self.registry.peers@ == s0.registry.peers@,
            decreases addrs@.len() - x,
        {
            let a = &addrs[x];
            match a.peer_id() {
                None => {},
                Some(id) => {
                    if !id.same(&self.config.our_id) {
                        let ghost peers_a = self.registry.peers@;
                        let i = self.peer_index_or_insert(&id);
                        let ghost peers_b = self.registry.peers@;
                        let ghost was = peers_b[i as int];
                        proof {
                            assert(with_id_same(a@, id@));
                            if all_known(s0.registry.peers@, addrs@, s0.config.our_id@) {
                                assert(addr_known(peers_a, a@));
                                let j = choose|j: int|
                                    0 <= j < peers_a.len() && Some((#[trigger] peers_a[j]).id@) == a@.2 && crate::addr::addr_in(peers_a[j].multiaddrs@, a@);
                                assert(peers_b == peers_a);
                                if j != i {
                                    assert(peers_b[j].id@ != peers_b[i as int].id@);
                                }
                            }
                        }
                        self.registry.peers[i].multiaddrs.insert(a);
                        proof {
                            lemma_peer_touched(peers_b, self.registry.peers@, self.registry.sessions@, i as int);
                            let peers_c = self.registry.peers@;
                            assert(crate::addr::addr_in(peers_c[i as int].multiaddrs@, a@)) by {
                                if !crate::addr::addr_in(was.multiaddrs@, a@) {
                                    assert(peers_c[i as int].multiaddrs@[was.multiaddrs@.len() as int].0 == a@);
                                }
                            }
                            assert(addr_known(peers_c, a@));
                            if all_known(s0.registry.peers@, addrs@, s0.config.our_id@) {
                                assert(peers_c =~= peers_b);
                            }
                            assert forall|k: int| 0 <= k < x + 1 && discoverable((#[trigger] addrs@[k])@, s0.config.our_id@)
                                implies addr_known(peers_c, addrs@[k]@) by {
                                if k < x {
                                    assert(addr_known(peers_a, addrs@[k]@));
                                    let j = choose|j: int|
                                        0 <= j < peers_a.len() && Some((#[trigger] peers_a[j]).id@) == addrs@[k]@.2 && crate::addr::addr_in(peers_a[j].multiaddrs@, addrs@[k]@);
                                    assert(peers_b[j] == peers_a[j]);
                                    let e = peers_a[j].multiaddrs@[choose|t: int| 0 <= t < peers_a[j].multiaddrs@.len() && peers_a[j].multiaddrs@[t].0 == addrs@[k]@];
                                    assert(peers_a[j].multiaddrs@.contains(e));
                                    assert(peers_c[j].multiaddrs@.contains(e));
                                    let t2 = choose|t2: int| 0 <= t2 < peers_c[j].multiaddrs@.len() && peers_c[j].multiaddrs@[t2] == e;
                                    assert(crate::addr::addr_in(peers_c[j].multiaddrs@, addrs@[k]@));
                                }
                            }
                            assert forall|k: int| 0 <= k < s0.registry.peers@.len() implies (#[trigger] peers_c[k]).id@ == s0.registry.peers@[k].id@
                                && forall|e: (crate::addr::MultiaddrView, u32)|
                                s0.registry.peers@[k].multiaddrs@.contains(e) ==> peers_c[k].multiaddrs@.contains(e) by {
                                assert(peers_b[k] == peers_a[k]);
                            }
                        }
                    } else {
                        assert(!discoverable(a@, s0.config.our_id@));
                    }
                },
            }
            x = x + 1;
        }
    }
}

impl PeerManager {
    /// Identify reported the addresses of peer `pid`: each is added with the
    /// id pushed where absent; present ones keep their failure counts.
    pub fn identified_addrs(&mut self, pid: &PeerId, addrs: &Vec<Multiaddr>)
        requires
            old(self).wf(),
        ensures
            final(self).wf(),
            final(self).config == old(self).config,
            final(self).registry.sessions@ == old(self).registry.sessions@,
            final(self).registry.listen@ == old(self).registry.listen@,
            final(self).connecting@ == old(self).connecting@,
            has_peer(final(self).registry.peers@, pid@),
            final(self).registry.peers@.len() >= old(self).registry.peers@.len(),
            forall|j: int| 0 <= j < old(self).registry.peers@.len() ==> (#[trigger] final(self).registry.peers@[j]).id@
                == old(self).registry.peers@[j].id@,
            peer_of(final(self).registry.peers@, pid@).unwrap().multiaddrs@ == crate::addr::addrs_insert_all(
                if has_peer(old(self).registry.peers@, pid@) {
                    peer_of(old(self).registry.peers@, pid@).unwrap().multiaddrs@
                } else {
                    Seq::empty()
                },
                addrs@.map_values(|a: Multiaddr| a@),
                pid@,
            ),
            // nothing changes but that peer's addresses; a new peer is a fresh record
            final(self).registry.peers@.len() == old(self).registry.peers@.len() + if has_peer(
                old(self).registry.peers@,
                pid@,
            ) {
                0int
            } else {
                1int
            },
            forall|j: int| 0 <= j < old(self).registry.peers@.len() && (#[trigger] old(self).registry.peers@[j]).id@ != pid@
                ==> final(self).registry.peers@[j] == old(self).registry.peers@[j],
            has_peer(old(self).registry.peers@, pid@) ==> ({
                let (p, q) = (peer_of(old(self).registry.peers@, pid@).unwrap(), peer_of(final(self).registry.peers@, pid@).unwrap());
                Peer { multiaddrs: q.multiaddrs, ..p } == q
            }),
            !has_peer(old(self).registry.peers@, pid@) ==> fresh_record(peer_of(final(self).registry.peers@, pid@).unwrap()),
    {
        let ghost s0 = *self;
        let i = self.peer_index_or_insert(pid);
        proof {
            lemma_peer_of(self.registry.peers@, self.registry.sessions@, i as int);
            if !has_peer(old(self).registry.peers@, pid@) {
                assert(self.registry.peers@[i as int].multiaddrs@ =~= Seq::<(crate::addr::MultiaddrView, u32)>::empty());
                assert(self.registry.peers@.drop_last() == s0.registry.peers@);
            } else {
                lemma_peer_of(s0.registry.peers@, s0.registry.sessions@, i as int);
            }
        }
        let ghost before = self.registry.peers@;
        self.registry.peers[i].multiaddrs.insert_all(addrs);
        proof {
            lemma_peer_touched(before, self.registry.peers@, self.registry.sessions@, i as int);
            lemma_peer_of(self.registry.peers@, self.registry.sessions@, i as int);
            assert forall|j: int| 0 <= j < s0.registry.peers@.len() && (#[trigger] s0.registry.peers@[j]).id@ != pid@
                implies self.registry.peers@[j] == s0.registry.peers@[j] by {
                assert(before[j] == s0.registry.peers@[j]);
                assert(j != i);
            }
        }
    }

    /// The transport saw a second connection to the peer of session `sid`
    /// through `addr`. The session is not admitted; an inbound address is
    /// dropped from the peer, an outbound one proved reachable and has its
    /// failures reset.
    pub fn repeated_connection(&mut self, ty: SessionType, sid: u64, addr: &Multiaddr)
        requires
            old(self).wf(),
        ensures
            final(self).wf(),
            final(self).config == old(self).config,
            final(self).registry.sessions@ == old(self).registry.sessions@,
            final(self).registry.listen@ == old(self).registry.listen@,
            final(self).connecting@ == old(self).connecting@,
            !crate::registry::has_sid(old(self).registry.sessions@, sid) ==> final(self).registry == old(self).registry,
            crate::registry::has_sid(old(self).registry.sessions@, sid) ==> ({
                let id = session_with_sid(old(self).registry.sessions@, sid).peer@;
                let p = peer_of(old(self).registry.peers@, id).unwrap();
                let q = peer_of(final(self).registry.peers@, id).unwrap();
                &&& ty == SessionType::Inbound ==> !crate::addr::addr_in(q.multiaddrs@, crate::addr::with_id(addr@, id))
                &&& ty == SessionType::Outbound ==> crate::addr::failures_updated(
                    p.multiaddrs@, q.multiaddrs@, crate::addr::with_id(addr@, id), |n: u32| 0u32)
            }),
    {
        match self.registry.find_session(sid) {
            None => {},
            Some(j) => {
                let ghost s0 = *self;
                let i = self.owner_of(j);
                proof {
                    lemma_peer_of(s0.registry.peers@, s0.registry.sessions@, i as int);
                    let c = choose|c: int| 0 <= c < s0.registry.sessions@.len() && (#[trigger] s0.registry.sessions@[c]).sid == sid;
                    assert(c == j as int);
                }
                let ghost before = self.registry.peers@;
                match ty {
                    SessionType::Inbound => self.registry.peers[i].multiaddrs.remove(addr),
                    SessionType::Outbound => self.registry.peers[i].multiaddrs.reset_failure(addr),
                }
                proof {
                    lemma_peer_touched(before, self.registry.peers@, self.registry.sessions@, i as int);
                    lemma_peer_of(self.registry.peers@, self.registry.sessions@, i as int);
                }
            },
        }
    }

    /// We listen on a new address; our id is pushed where absent.
    pub fn add_new_listen_addr(&mut self, addr: &Multiaddr)
        requires
            old(self).wf(),
        ensures
            final(self).wf(),
            crate::registry::listen_view(final(self).registry.listen@) == crate::registry::with_added(
                crate::registry::listen_view(old(self).registry.listen@), crate::addr::with_id(addr@, old(self).config.our_id@)),
            final(self).registry.peers@ == old(self).registry.peers@,
            final(self).registry.sessions@ == old(self).registry.sessions@,
            final(self).config == old(self).config,
            final(self).connecting@ == old(self).connecting@,
    {
        self.registry.add_listen(addr);
    }

    /// We stopped listening on an address, matched with our id pushed.
    pub fn remove_listen_addr(&mut self, addr: &Multiaddr)
        requires
            old(self).wf(),
        ensures
            final(self).wf(),
            crate::registry::listen_view(final(self).registry.listen@) == crate::registry::without(
                crate::registry::listen_view(old(self).registry.listen@), crate::addr::with_id(addr@, old(self).config.our_id@)),
            final(self).registry.peers@ == old(self).registry.peers@,
            final(self).registry.sessions@ == old(self).registry.sessions@,
            final(self).config == old(self).config,
            final(self).connecting@ == old(self).connecting@,
    {
        self.registry.remove_listen(addr);
    }

    /// Adds `tag` to peer `pid`, creating the peer where unknown.
    pub fn tag(&mut self, pid: &PeerId, tag: crate::tags::Tag)
        requires
            old(self).wf(),
        ensures
            final(self).wf(),
            final(self).config == old(self).config,
            final(self).registry.sessions@ == old(self).registry.sessions@,
            final(self).connecting@ == old(self).connecting@,
            has_peer(final(self).registry.peers@, pid@),
            has_peer(old(self).registry.peers@, pid@) ==> peer_of(final(self).registry.peers@, pid@).unwrap().tags
                == crate::tags::tags_insert(peer_of(old(self).registry.peers@, pid@).unwrap().tags, tag),
            !has_peer(old(self).registry.peers@, pid@) ==> peer_of(final(self).registry.peers@, pid@).unwrap().tags
                == crate::tags::tags_insert(crate::tags::Tags { always_allow: false, consensus: false, ban_until: None }, tag),
            // nothing changes but that peer's tags
            final(self).registry.listen@ == old(self).registry.listen@,
            final(self).registry.peers@.len() == old(self).registry.peers@.len() + if has_peer(
                old(self).registry.peers@,
                pid@,
            ) {
                0int
            } else {
                1int
            },
            forall|j: int| 0 <= j < old(self).registry.peers@.len() && (#[trigger] old(self).registry.peers@[j]).id@ != pid@
                ==> final(self).registry.peers@[j] == old(self).registry.peers@[j],
            has_peer(old(self).registry.peers@, pid@) ==> ({
                let (p, q) = (peer_of(old(self).registry.peers@, pid@).unwrap(), peer_of(final(self).registry.peers@, pid@).unwrap());
                Peer { tags: q.tags, ..p } == q
            }),
    {
        let ghost s0 = *self;
        let i = self.peer_index_or_insert(pid);
        proof {
            lemma_peer_of(self.registry.peers@, self.registry.sessions@, i as int);
            if has_peer(s0.registry.peers@, pid@) {
                lemma_peer_of(s0.registry.peers@, s0.registry.sessions@, i as int);
            } else {
                assert(self.registry.peers@.drop_last() == s0.registry.peers@);
            }
        }
        let ghost before = self.registry.peers@;
        self.registry.peers[i].tags.insert(tag);
        proof {
            lemma_peer_touched(before, self.registry.peers@, self.registry.sessions@, i as int);
            lemma_peer_of(self.registry.peers@, self.registry.sessions@, i as int);
            assert forall|j: int| 0 <= j < s0.registry.peers@.len() && (#[trigger] s0.registry.peers@[j]).id@ != pid@
                implies self.registry.peers@[j] == s0.registry.peers@[j] by {
                assert(before[j] == s0.registry.peers@[j]);
                assert(j != i);
            }
        }
    }

    /// Removes the tags of kind `kind` from peer `pid`, if known.
    pub fn untag(&mut self, pid: &PeerId, kind: TagKind)
        requires
            old(self).wf(),
        ensures
            final(self).wf(),
            final(self).config == old(self).config,
            final(self).registry.sessions@ == old(self).registry.sessions@,
            final(self).connecting@ == old(self).connecting@,
            has_peer(final(self).registry.peers@, pid@) == has_peer(old(self).registry.peers@, pid@),
            has_peer(old(self).registry.peers@, pid@) ==> peer_of(final(self).registry.peers@, pid@).unwrap().tags
                == crate::tags::tags_remove(peer_of(old(self).registry.peers@, pid@).unwrap().tags, kind),
            !has_peer(old(self).registry.peers@, pid@) ==> final(self).registry == old(self).registry,
    {
        match self.registry.find_peer(pid) {
            None => {},
            Some(i) => {
                proof {
                    lemma_peer_of(self.registry.peers@, self.registry.sessions@, i as int);
                }
                let ghost before = self.registry.peers@;
                self.registry.peers[i].tags.remove(kind);
                proof {
                    lemma_peer_touched(before, self.registry.peers@, self.registry.sessions@, i as int);
                    lemma_peer_of(self.registry.peers@, self.registry.sessions@, i as int);
                    assert(has_peer(self.registry.peers@, pid@));
                }
            },
        }
    }
}

/// Tagging a known peer and untagging it again leaves its tags as they were,
/// where it held no tag of that kind.
pub proof fn lemma_tag_untag_peer(
    m0: PeerManager,
    m1: PeerManager,
    m2: PeerManager,
    pid: Seq<u8>,
    tag: crate::tags::Tag,
)
    requires
        has_peer(m0.registry.peers@, pid),
        has_peer(m1.registry.peers@, pid),
        peer_of(m1.registry.peers@, pid).unwrap().tags == crate::tags::tags_insert(peer_of(m0.registry.peers@, pid).unwrap().tags, tag),
        peer_of(m2.registry.peers@, pid).unwrap().tags == crate::tags::tags_remove(
            peer_of(m1.registry.peers@, pid).unwrap().tags,
            crate::tags::kind_of(tag),
        ),
        !crate::tags::tags_contain(peer_of(m0.registry.peers@, pid).unwrap().tags, crate::tags::kind_of(tag)),
    ensures
        peer_of(m2.registry.peers@, pid).unwrap().tags == peer_of(m0.registry.peers@, pid).unwrap().tags,
{
    crate::tags::lemma_tag_untag(peer_of(m0.registry.peers@, pid).unwrap().tags, tag);
}

proof fn lemma_attempt_kept(s: Seq<(Seq<u8>, usize, u64)>, x: Seq<u8>, y: Seq<u8>)
    requires
        has_attempt(s, x),
        x != y,
    ensures
        has_attempt(attempts_without(s, y), x),
    decreases s.len(),
{
    let w = attempts_without(s.drop_last(), y);
    if s.last().0 == x {
        assert(attempts_without(s, y) == w.push(s.last()));
        assert(attempts_without(s, y)[w.len() as int].0 == x);
    } else {
        let k = choose|k: int| 0 <= k < s.len() && (#[trigger] s[k]).0 == x;
        assert(s.drop_last()[k].0 == x);
        lemma_attempt_kept(s.drop_last(), x, y);
        let j = choose|j: int| 0 <= j < w.len() && (#[trigger] w[j]).0 == x;
        if s.last().0 != y {
            assert(w.push(s.last())[j].0 == x);
        }
    }
}

/// `a` is a dialable address of a peer connected through a session other
/// than `excluded`.
pub open spec fn shareable(m: PeerManager, excluded: u64, a: crate::addr::MultiaddrView) -> bool {
    exists|j: int, i: int|
        0 <= j < m.registry.sessions@.len() && 0 <= i < m.registry.peers@.len()
            && (#[trigger] m.registry.sessions@[j]).sid != excluded
            && (#[trigger] m.registry.peers@[i]).id@ == m.registry.sessions@[j].peer@
            && crate::addr::connectable_addrs(m.registry.peers@[i].multiaddrs@).contains(a)
}

/// `id` is one of the first `nb` bootstrap ids or of the first `na` allowlisted ids.
pub open spec fn configured(config: PeerManagerConfig, id: Seq<u8>, nb: int, na: int) -> bool {
    (exists|x: int| 0 <= x < nb && (#[trigger] config.bootstraps@[x]).0@ == id)
        || in_allowlist(config, id, na)
}

/// `id` is one of the first `na` allowlisted ids.
pub open spec fn in_allowlist(config: PeerManagerConfig, id: Seq<u8>, na: int) -> bool {
    exists|x: int| 0 <= x < na && (#[trigger] config.allowlist@[x])@ == id
}

/// A record that nothing has happened to yet, tags and addresses aside.
pub open spec fn untouched(p: Peer) -> bool {
    &&& p.connectedness == Connectedness::NotConnected
    &&& p.session_id == 0
    &&& p.retry.count == 0
    &&& p.trust_metric.is_none()
    &&& !p.tags.consensus && p.tags.ban_until.is_none()
}

/// A record as it is made for a newly known peer, addresses aside.
pub open spec fn fresh_record(p: Peer) -> bool {
    &&& p.connectedness == Connectedness::NotConnected
    &&& p.session_id == 0
    &&& p.retry.count == 0
    &&& p.trust_metric.is_none()
    &&& !p.tags.always_allow && !p.tags.consensus && p.tags.ban_until.is_none()
}

/// The addresses a `Connect` carries.
pub open spec fn connect_addrs(e: ConnectionEvent) -> Seq<crate::addr::MultiaddrView> {
    match e {
        ConnectionEvent::Connect { addrs, .. } => addrs@.map_values(|a: Multiaddr| a@),
        _ => Seq::empty(),
    }
}

/// The dialable addresses are as many as the count says.
proof fn lemma_connectable_len(s: Seq<(crate::addr::MultiaddrView, u32)>)
    ensures
        crate::addr::connectable_addrs(s).len() == crate::addr::connectable_count(s),
    decreases s.len(),
{
    if s.len() > 0 {
        lemma_connectable_len(s.drop_last());
    }
}

/// The peer may be dialled now: it is neither connected, being dialled nor
/// given up, the allowlist admits it, and it has a dialable address.
pub open spec fn dialable(m: PeerManager, p: Peer) -> bool {
    &&& (p.connectedness == Connectedness::NotConnected || p.connectedness == Connectedness::CanConnect)
    &&& (!m.config.allowlist_only || p.tags.always_allow)
    &&& crate::addr::connectable_count(p.multiaddrs@) > 0
}

impl PeerManager {
    /// Starts a dial of the peer at `i`: it becomes `Connecting`, holds one
    /// outstanding dial started at `now`, and its dialable addresses are given.
    fn dial_index(&mut self, i: usize, now: u64) -> (r: Vec<Multiaddr>)
        requires
            old(self).wf(),
            i < old(self).registry.peers@.len(),
            old(self).registry.peers@[i as int].connectedness != Connectedness::Connected,
            old(self).registry.peers@[i as int].connectedness != Connectedness::Unconnectable,
        ensures
            final(self).wf(),
            final(self).config == old(self).config,
            final(self).registry.sessions@ == old(self).registry.sessions@,
            final(self).registry.listen@ == old(self).registry.listen@,
            others_kept(old(self).registry.peers@, final(self).registry.peers@, i as int),
            ({
                let (p, q) = (old(self).registry.peers@[i as int], final(self).registry.peers@[i as int]);
                &&& q.id == p.id && q.multiaddrs == p.multiaddrs && q.tags == p.tags && q.retry == p.retry
                &&& q.connectedness == Connectedness::Connecting
            }),
            has_attempt(attempts_view(final(self).connecting@), old(self).registry.peers@[i as int].id@),
            forall|x: Seq<u8>| x != old(self).registry.peers@[i as int].id@ && has_attempt(attempts_view(old(self).connecting@), x)
                ==> has_attempt(attempts_view(final(self).connecting@), x),
            forall|x: Seq<u8>| x != old(self).registry.peers@[i as int].id@ && !has_attempt(attempts_view(old(self).connecting@), x)
                ==> !has_attempt(attempts_view(final(self).connecting@), x),
            r@.map_values(|a: Multiaddr| a@) == crate::addr::connectable_addrs(old(self).registry.peers@[i as int].multiaddrs@),
            attempts_view(final(self).connecting@).drop_last() == attempts_without(
                attempts_view(old(self).connecting@), old(self).registry.peers@[i as int].id@),
            attempts_view(final(self).connecting@).len() > 0,
            attempts_view(final(self).connecting@).last().2 == now,
            attempts_view(final(self).connecting@).last() == (
                old(self).registry.peers@[i as int].id@,
                crate::addr::connectable_addrs(old(self).registry.peers@[i as int].multiaddrs@).len() as usize,
                now,
            ),
    {
        let id = self.registry.peers[i].id.copy();
        let ghost c0 = attempts_view(self.connecting@);
        self.remove_connecting(&id);
        let ghost c1 = attempts_view(self.connecting@);
        let addrs = self.registry.peers[i].multiaddrs.connectable();
        let n = addrs.len();
        assert(addrs@.map_values(|a: Multiaddr| a@).len() == addrs@.len());
        let attempt = ConnectingAttempt::new(id, n, now);
        self.connecting.push(attempt);
        let ghost before = self.registry.peers@;
        self.registry.peers[i].set_connectedness(Connectedness::Connecting);
        proof {
            lemma_peer_touched(before, self.registry.peers@, self.registry.sessions@, i as int);
            let c2 = attempts_view(self.connecting@);
            assert(c2 =~= c1.push(attempt@));
            assert(c2.drop_last() =~= c1);
            assert(c2[c1.len() as int].0 == id@);
            assert forall|x: Seq<u8>| x != id@ && has_attempt(c0, x) implies has_attempt(c2, x) by {
                lemma_attempt_kept(c0, x, id@);
                let j = choose|j: int| 0 <= j < c1.len() && (#[trigger] c1[j]).0 == x;
                assert(c2[j] == c1[j]);
            }
            assert forall|x: Seq<u8>| x != id@ && !has_attempt(c0, x) implies !has_attempt(c2, x) by {
                if has_attempt(c2, x) {
                    let j = choose|j: int| 0 <= j < c2.len() && (#[trigger] c2[j]).0 == x;
                    assert(j < c1.len());
                    assert(has_attempt(c1, x));
                    lemma_without_sub(c0, id@, x);
                }
            }
        }
        addrs
    }

    /// Dials the named peers at once, whatever their retry timers say. Peers
    /// that are connected, being dialled, given up, refused by the allowlist
    /// or without a dialable address are skipped. One `Connect` carries the
    /// addresses of all dialled peers.
    pub fn connect_peers_now(&mut self, pids: &Vec<PeerId>, now: u64, out: &mut Vec<ConnectionEvent>)
        requires
            old(self).wf(),
        ensures
            final(self).wf(),
            final(self).config == old(self).config,
            final(self).registry.sessions@ == old(self).registry.sessions@,
            final(self).registry.listen@ == old(self).registry.listen@,
            final(self).registry.peers@.len() == old(self).registry.peers@.len(),
            forall|j: int| 0 <= j < old(self).registry.peers@.len() && !dialable(*old(self), #[trigger] old(self).registry.peers@[j])
                && (old(self).registry.peers@[j].connectedness != Connectedness::NotConnected
                    && old(self).registry.peers@[j].connectedness != Connectedness::CanConnect)
                ==> final(self).registry.peers@[j] == old(self).registry.peers@[j],
            forall|k: int| 0 <= k < pids@.len() && has_peer(old(self).registry.peers@, (#[trigger] pids@[k])@)
                && dialable(*old(self), peer_of(old(self).registry.peers@, pids@[k]@).unwrap())
                ==> peer_of(final(self).registry.peers@, pids@[k]@).unwrap().connectedness == Connectedness::Connecting
                    && has_attempt(attempts_view(final(self).connecting@), pids@[k]@),
            final(out)@.len() <= old(out)@.len() + 1,
            final(out)@.subrange(0, old(out)@.len() as int) == old(out)@,
            (forall|k: int| 0 <= k < pids@.len() ==> !(has_peer(old(self).registry.peers@, (#[trigger] pids@[k])@)
                && dialable(*old(self), peer_of(old(self).registry.peers@, pids@[k]@).unwrap()))) ==> final(out)@ == old(out)@,
            // otherwise exactly one `Connect` goes out, carrying every dialable address of every dialled peer
            (exists|k: int| 0 <= k < pids@.len() && has_peer(old(self).registry.peers@, (#[trigger] pids@[k])@)
                && dialable(*old(self), peer_of(old(self).registry.peers@, pids@[k]@).unwrap())) ==> final(out)@.len()
                == old(out)@.len() + 1 && (final(out)@.last() matches ConnectionEvent::Connect { target: None, .. })
                && forall|k: int, a: crate::addr::MultiaddrView| 0 <= k < pids@.len() && has_peer(old(self).registry.peers@, pids@[k]@)
                    && dialable(*old(self), peer_of(old(self).registry.peers@, pids@[k]@).unwrap())
                    && #[trigger] crate::addr::connectable_addrs(peer_of(old(self).registry.peers@, pids@[k]@).unwrap().multiaddrs@).contains(a)
                    ==> connect_addrs(final(out)@.last()).contains(a),
    {
        let ghost s0 = *self;
        let mut union: Vec<Multiaddr> = Vec::new();
        let mut x: usize = 0;
        while x < pids.len()
            invariant
                self.wf(),
                s0.wf(),
                s0 == *old(self),
                self.config == s0.config,
                self.registry.sessions@ == s0.registry.sessions@,
                self.registry.listen@ == s0.registry.listen@,
                self.registry.peers@.len() == s0.registry.peers@.len(),
                x <= pids@.len(),
                forall|j: int| 0 <= j < s0.registry.peers@.len() ==> (#[trigger] self.registry.peers@[j]).id@ == s0.registry.peers@[j].id@
                    && (self.registry.peers@[j].connectedness == s0.registry.peers@[j].connectedness
                        || self.registry.peers@[j].connectedness == Connectedness::Connecting)
                    && self.registry.peers@[j].multiaddrs == s0.registry.peers@[j].multiaddrs
                    && self.registry.peers@[j].tags == s0.registry.peers@[j].tags,
                forall|j: int| 0 <= j < s0.registry.peers@.len() && (s0.registry.peers@[j].connectedness != Connectedness::NotConnected
                    && s0.registry.peers@[j].connectedness != Connectedness::CanConnect)
                    ==> (#[trigger] self.registry.peers@[j]) == s0.registry.peers@[j],
                forall|j: int| 0 <= j < s0.registry.peers@.len() && (#[trigger] self.registry.peers@[j]).connectedness == Connectedness::Connecting
                    && s0.registry.peers@[j].connectedness != Connectedness::Connecting
                    ==> has_attempt(attempts_view(self.connecting@), self.registry.peers@[j].id@),
                forall|k: int| 0 <= k < x && has_peer(s0.registry.peers@, (#[trigger] pids@[k])@)
                    && dialable(s0, peer_of(s0.registry.peers@, pids@[k]@).unwrap())
                    ==> peer_of(self.registry.peers@, pids@[k]@).unwrap().connectedness == Connectedness::Connecting,
                (forall|k: int| 0 <= k < x ==> !(has_peer(s0.registry.peers@, (#[trigger] pids@[k])@)
                    && dialable(s0, peer_of(s0.registry.peers@, pids@[k]@).unwrap()))) ==> union@.len() == 0,
                (exists|k: int| 0 <= k < x && has_peer(s0.registry.peers@, (#[trigger] pids@[k])@)
                    && dialable(s0, peer_of(s0.registry.peers@, pids@[k]@).unwrap())) ==> union@.len() > 0,
                forall|j: int, a: crate::addr::MultiaddrView| 0 <= j < s0.registry.peers@.len()
                    && self.registry.peers@[j].connectedness == Connectedness::Connecting
                    && s0.registry.peers@[j].connectedness != Connectedness::Connecting
                    && #[trigger] crate::addr::connectable_addrs(s0.registry.peers@[j].multiaddrs@).contains(a)
                    ==> union@.map_values(|m: Multiaddr| m@).contains(a),
            decreases pids@.len() - x,
        {
            match self.registry.find_peer(&pids[x]) {
                None => {
                    proof {
                        if has_peer(s0.registry.peers@, pids@[x as int]@) {
                            let j = choose|j: int| 0 <= j < s0.registry.peers@.len() && (#[trigger] s0.registry.peers@[j]).id@ == pids@[x as int]@;
                            assert(self.registry.peers@[j].id@ == pids@[x as int]@);
                        }
                    }
                },
                Some(i) => {
                    let ghost s1 = *self;
                    proof {
                        lemma_peer_of(s0.registry.peers@, s0.registry.sessions@, i as int);
                        lemma_peer_of(s1.registry.peers@, s1.registry.sessions@, i as int);
                    }
                    let p = &self.registry.peers[i];
                    let state_ok = p.connectedness == Connectedness::NotConnected || p.connectedness == Connectedness::CanConnect;
                    let allowed = !self.config.allowlist_only || p.tags.always_allow;
                    if state_ok && allowed && p.multiaddrs.connectable_len() > 0 {
                        let ghost pre = self.registry.peers@;
                        let addrs = self.dial_index(i, now);
                        let ghost u0 = union@.map_values(|m: Multiaddr| m@);
                        let ghost av = addrs@.map_values(|m: Multiaddr| m@);
                        let mut y: usize = 0;
                        while y < addrs.len()
                            invariant
                                y <= addrs@.len(),
                                av == addrs@.map_values(|m: Multiaddr| m@),
                                union@.map_values(|m: Multiaddr| m@) == u0 + av.subrange(0, y as int),
                            decreases addrs@.len() - y,
                        {
                            let ghost un = union@;
                            union.push(addrs[y].copy());
                            assert(union@.map_values(|m: Multiaddr| m@) =~= un.map_values(|m: Multiaddr| m@).push(av[y as int]));
                            assert(av.subrange(0, y + 1) =~= av.subrange(0, y as int).push(av[y as int]));
                            assert(u0 + av.subrange(0, y + 1) =~= (u0 + av.subrange(0, y as int)).push(av[y as int]));
                            y = y + 1;
                        }
                        proof {
                            let uv = union@.map_values(|m: Multiaddr| m@);
                            assert(av.subrange(0, av.len() as int) =~= av);
                            assert(uv == u0 + av);
                            lemma_connectable_len(s0.registry.peers@[i as int].multiaddrs@);
                            assert(uv.len() > 0);
                            assert forall|j: int, a: crate::addr::MultiaddrView| 0 <= j < s0.registry.peers@.len()
                                && self.registry.peers@[j].connectedness == Connectedness::Connecting
                                && s0.registry.peers@[j].connectedness != Connectedness::Connecting
                                && #[trigger] crate::addr::connectable_addrs(s0.registry.peers@[j].multiaddrs@).contains(a)
                                implies uv.contains(a) by {
                                if j == i {
                                    let t = choose|t: int| 0 <= t < av.len() && av[t] == a;
                                    assert(uv[u0.len() + t] == a);
                                } else {
                                    assert(self.registry.peers@[j] == pre[j]);
                                    let t = choose|t: int| 0 <= t < u0.len() && u0[t] == a;
                                    assert(uv[t] == a);
                                }
                            }
                        }
                        proof {
                            lemma_peer_of(self.registry.peers@, self.registry.sessions@, i as int);
                            assert forall|k: int| 0 <= k < x + 1 && has_peer(s0.registry.peers@, (#[trigger] pids@[k])@)
                                && dialable(s0, peer_of(s0.registry.peers@, pids@[k]@).unwrap())
                                implies peer_of(self.registry.peers@, pids@[k]@).unwrap().connectedness == Connectedness::Connecting by {
                                if k < x {
                                    let j = choose|j: int| 0 <= j < s0.registry.peers@.len() && (#[trigger] s0.registry.peers@[j]).id@ == pids@[k]@;
                                    assert(s1.registry.peers@[j].id@ == pids@[k]@);
                                    lemma_peer_of(s1.registry.peers@, s1.registry.sessions@, j);
                                    lemma_peer_of(self.registry.peers@, self.registry.sessions@, j);
                                }
                            }
                            assert forall|j: int| 0 <= j < s0.registry.peers@.len() && (#[trigger] self.registry.peers@[j]).connectedness
                                == Connectedness::Connecting && s0.registry.peers@[j].connectedness != Connectedness::Connecting
                                implies has_attempt(attempts_view(self.connecting@), self.registry.peers@[j].id@) by {
                                if j != i {
                                    assert(self.registry.peers@[j] == s1.registry.peers@[j]);
                                    assert(s1.registry.peers@[j].id@ != s1.registry.peers@[i as int].id@);
                                }
                            }
                        }
                    } else {
                        proof {
                            let prior = s0.registry.peers@[i as int];
                            if dialable(s0, prior) {
                                assert(self.registry.peers@[i as int].connectedness == Connectedness::Connecting);
                                lemma_connectable_len(prior.multiaddrs@);
                                let a = crate::addr::connectable_addrs(prior.multiaddrs@)[0];
                                assert(crate::addr::connectable_addrs(prior.multiaddrs@).contains(a));
                                assert(union@.map_values(|m: Multiaddr| m@).contains(a));
                            }
                        }
                    }
                },
            }
            x = x + 1;
        }
        if union.len() > 0 {
            out.push(ConnectionEvent::Connect { addrs: union, target: None });
        }
        proof {
            assert(final_prefix(out@, old(out)@));
            assert forall|k: int| 0 <= k < pids@.len() && has_peer(old(self).registry.peers@, (#[trigger] pids@[k])@)
                && dialable(*old(self), peer_of(old(self).registry.peers@, pids@[k]@).unwrap())
                implies peer_of(self.registry.peers@, pids@[k]@).unwrap().connectedness == Connectedness::Connecting
                    && has_attempt(attempts_view(self.connecting@), pids@[k]@) by {
                let j = choose|j: int| 0 <= j < s0.registry.peers@.len() && (#[trigger] s0.registry.peers@[j]).id@ == pids@[k]@;
                lemma_peer_of(s0.registry.peers@, s0.registry.sessions@, j);
                assert(self.registry.peers@[j].id@ == pids@[k]@);
                lemma_peer_of(self.registry.peers@, self.registry.sessions@, j);
            }
        }
    }
}

proof fn lemma_without_absent_id(s: Seq<(Seq<u8>, usize, u64)>, y: Seq<u8>)
    requires
        !has_attempt(s, y),
    ensures
        attempts_without(s, y) == s,
    decreases s.len(),
{
    if s.len() > 0 {
        assert(!has_attempt(s.drop_last(), y)) by {
            if has_attempt(s.drop_last(), y) {
                let k = choose|k: int| 0 <= k < s.drop_last().len() && (#[trigger] s.drop_last()[k]).0 == y;
                assert(s[k].0 == y);
            }
        }
        assert(s[s.len() - 1].0 != y);
        lemma_without_absent_id(s.drop_last(), y);
        assert(s.drop_last().push(s.last()) =~= s);
    }
}

proof fn lemma_without_subset(s: Seq<(Seq<u8>, usize, u64)>, y: Seq<u8>, e: (Seq<u8>, usize, u64))
    requires
        attempts_without(s, y).contains(e),
    ensures
        s.contains(e),
    decreases s.len(),
{
    if s.len() > 0 {
        let w = attempts_without(s.drop_last(), y);
        let t = choose|t: int| 0 <= t < attempts_without(s, y).len() && attempts_without(s, y)[t] == e;
        if s.last().0 != y && t == w.len() {
            assert(s[s.len() - 1] == e);
        } else {
            assert(w[t] == e);
            lemma_without_subset(s.drop_last(), y, e);
            let u = choose|u: int| 0 <= u < s.drop_last().len() && s.drop_last()[u] == e;
            assert(s[u] == e);
        }
    }
}

pub open spec fn final_prefix(a: Seq<ConnectionEvent>, b: Seq<ConnectionEvent>) -> bool {
    a.subrange(0, b.len() as int) =~= b
}

proof fn lemma_without_sub(s: Seq<(Seq<u8>, usize, u64)>, y: Seq<u8>, x: Seq<u8>)
    requires
        has_attempt(attempts_without(s, y), x),
    ensures
        has_attempt(s, x),
    decreases s.len(),
{
    if s.len() > 0 {
        let w = attempts_without(s.drop_last(), y);
        if s.last().0 != y {
            let j = choose|j: int| 0 <= j < w.push(s.last()).len() && (#[trigger] w.push(s.last())[j]).0 == x;
            if j == w.len() {
                assert(s[s.len() - 1].0 == x);
            } else {
                assert(w[j].0 == x);
                lemma_without_sub(s.drop_last(), y, x);
                let t = choose|t: int| 0 <= t < s.drop_last().len() && (#[trigger] s.drop_last()[t]).0 == x;
                assert(s[t].0 == x);
            }
        } else {
            lemma_without_sub(s.drop_last(), y, x);
            let t = choose|t: int| 0 <= t < s.drop_last().len() && (#[trigger] s.drop_last()[t]).0 == x;
            assert(s[t].0 == x);
        }
    }
}

/// The routine may dial the peer at `now`: it is dialable, not banned, its
/// retry timer ran out, and no dial of it is outstanding.
pub open spec fn routine_eligible(m: PeerManager, p: Peer, now: u64) -> bool {
    &&& dialable(m, p)
    &&& !crate::tags::ban_in_force(p.tags, now)
    &&& p.retry.next_at <= now
    &&& !has_attempt(attempts_view(m.connecting@), p.id@)
}

/// The peer's score is at least `GOOD_TRUST_SCORE`.
pub open spec fn good_peer(p: Peer) -> bool {
    score_of(p).is_some() && score_of(p).unwrap() >= crate::trust::GOOD_TRUST_SCORE
}

/// Steps from `start` to `j` when scanning `n` positions with wrap-around.
pub open spec fn rot(j: int, start: int, n: int) -> int {
    if j >= start {
        j - start
    } else {
        j + n - start
    }
}

proof fn lemma_rot_unique(j: int, k: int, start: int, n: int)
    requires
        0 <= j < n,
        0 <= k < n,
        0 <= start < n,
        rot(j, start, n) == rot(k, start, n),
    ensures
        j == k,
{
}

/// The dials of `s` that are still live at `now`, in order.
pub open spec fn live_filter(s: Seq<(Seq<u8>, usize, u64)>, now: u64) -> Seq<(Seq<u8>, usize, u64)>
    decreases s.len(),
{
    if s.len() == 0 {
        s
    } else if attempt_live(s.last(), now) {
        live_filter(s.drop_last(), now).push(s.last())
    } else {
        live_filter(s.drop_last(), now)
    }
}

/// A peer being dialled without a live dial may be dialled again.
pub open spec fn swept_peer(p: Peer, live: Seq<(Seq<u8>, usize, u64)>) -> Peer {
    if p.connectedness == Connectedness::Connecting && !has_attempt(live, p.id@) {
        Peer { connectedness: Connectedness::CanConnect, ..p }
    } else {
        p
    }
}

/// What `sweep_connecting` guarantees, from `m0` to `m1`.
pub open spec fn sweep_post(m0: PeerManager, m1: PeerManager, now: u64) -> bool {
    &&& m1.wf()
    &&& m1.config == m0.config
    &&& m1.registry.sessions@ == m0.registry.sessions@
    &&& m1.registry.listen@ == m0.registry.listen@
    &&& attempts_view(m1.connecting@) == live_filter(attempts_view(m0.connecting@), now)
    &&& m1.registry.peers@.len() == m0.registry.peers@.len()
    &&& forall|j: int| 0 <= j < m0.registry.peers@.len() ==> (#[trigger] m1.registry.peers@[j]) == swept_peer(
        m0.registry.peers@[j],
        attempts_view(m1.connecting@),
    )
}

/// Dials the routine may start in state `m`: the outbound deficit, when
/// positive, plus `MAX_CONNECTING_MARGIN`.
pub open spec fn dial_limit(m: PeerManager) -> int {
    let d = m.config.outbound_conn_limit - crate::registry::count_type(m.registry.sessions@, SessionType::Outbound)
        - m.connecting@.len();
    if d > 0 {
        if d + MAX_CONNECTING_MARGIN <= usize::MAX {
            d + MAX_CONNECTING_MARGIN
        } else {
            usize::MAX as int
        }
    } else {
        0
    }
}

/// `e` dials peer `p` on its dialable addresses.
pub open spec fn connect_to(e: ConnectionEvent, p: Peer) -> bool {
    match e {
        ConnectionEvent::Connect { addrs, target } => target.is_some() && target.unwrap()@ == p.id@
            && addrs@.map_values(|a: Multiaddr| a@) == crate::addr::connectable_addrs(p.multiaddrs@),
        _ => false,
    }
}

/// Command `e` dials a peer that is being dialled in `m1`.
pub open spec fn names_dialled(m0: PeerManager, m1: PeerManager, e: ConnectionEvent, now: u64) -> bool {
    exists|j: int|
        0 <= j < m0.registry.peers@.len() && dialled(m0, m1, j, now) && #[trigger] connect_to(e, m0.registry.peers@[j])
}

/// Peer `j`, eligible in `m0`, is being dialled in `m1`.
pub open spec fn dialled(m0: PeerManager, m1: PeerManager, j: int, now: u64) -> bool {
    routine_eligible(m0, m0.registry.peers@[j], now) && m1.registry.peers@[j].connectedness == Connectedness::Connecting
}

/// What `dial_round` guarantees, from `m0` to `m1`, with commands `out0`
/// before and `out1` after, and `r` peers dialled.
pub open spec fn dial_post(
    m0: PeerManager,
    m1: PeerManager,
    out0: Seq<ConnectionEvent>,
    out1: Seq<ConnectionEvent>,
    r: int,
    now: u64,
) -> bool {
    let n = m0.registry.peers@.len();
    &&& m1.wf()
    &&& m1.config == m0.config
    &&& m1.registry.sessions@ == m0.registry.sessions@
    &&& m1.registry.listen@ == m0.registry.listen@
    &&& m1.registry.peers@.len() == n
    &&& 0 <= r <= dial_limit(m0)
    &&& out1.len() == out0.len() + r
    &&& out1.subrange(0, out0.len() as int) == out0
    // each new command dials a distinct peer that is being dialled now
    &&& forall|x: int| out0.len() <= x < out1.len() ==> #[trigger] names_dialled(m0, m1, out1[x], now)
    &&& forall|x: int, y: int, j: int|
        out0.len() <= x < out1.len() && out0.len() <= y < out1.len() && x != y && 0 <= j < n
            ==> !(#[trigger] connect_to(out1[x], m0.registry.peers@[j]) && #[trigger] connect_to(out1[y], m0.registry.peers@[j]))
    // each dialled peer has its command and a dial started at `now`
    &&& forall|j: int| 0 <= j < n && #[trigger] dialled(m0, m1, j, now) ==> ({
        let (p, q) = (m0.registry.peers@[j], m1.registry.peers@[j]);
        &&& exists|x: int| out0.len() <= x < out1.len() && #[trigger] connect_to(out1[x], p)
        &&& q.id == p.id && q.multiaddrs == p.multiaddrs && q.tags == p.tags && q.retry == p.retry
        &&& attempts_view(m1.connecting@).contains(
            (p.id@, crate::addr::connectable_addrs(p.multiaddrs@).len() as usize, now),
        )
    })
    // peers not dialled stay as they were, and so do earlier dials
    &&& forall|j: int| 0 <= j < n && !dialled(m0, m1, j, now) ==> (#[trigger] m1.registry.peers@[j]) == m0.registry.peers@[j]
    &&& forall|e: (Seq<u8>, usize, u64)| attempts_view(m0.connecting@).contains(e) ==> attempts_view(m1.connecting@).contains(e)
    // under the limit, every eligible peer is dialled
    &&& r < dial_limit(m0) ==> forall|j: int| 0 <= j < n && routine_eligible(m0, #[trigger] m0.registry.peers@[j], now)
        ==> dialled(m0, m1, j, now)
    // a peer without a good score is dialled only once every eligible good peer is
    &&& (exists|j: int| 0 <= j < n && #[trigger] dialled(m0, m1, j, now) && !good_peer(m0.registry.peers@[j]))
        ==> forall|j: int| 0 <= j < n && routine_eligible(m0, #[trigger] m0.registry.peers@[j], now)
        && good_peer(m0.registry.peers@[j]) ==> dialled(m0, m1, j, now)
}

/// What `tick_metrics` guarantees, from `m0` to `m1`.
pub open spec fn tick_post(m0: PeerManager, m1: PeerManager, now: u64) -> bool {
    &&& m1.wf()
    &&& m1.config == m0.config
    &&& m1.connecting@ == m0.connecting@
    &&& m1.registry.sessions@ == m0.registry.sessions@
    &&& m1.registry.listen@ == m0.registry.listen@
    &&& m1.registry.peers@.len() == m0.registry.peers@.len()
    &&& forall|j: int| 0 <= j < m0.registry.peers@.len() ==> metric_ticked(
        #[trigger] m0.registry.peers@[j], m1.registry.peers@[j], now)
}

/// `q` is `p` with its metric, if any, ticked at `now`.
pub open spec fn metric_ticked(p: Peer, q: Peer, now: u64) -> bool {
    &&& q.id == p.id && q.connectedness == p.connectedness && q.session_id == p.session_id
    &&& q.tags == p.tags && q.retry == p.retry && q.multiaddrs == p.multiaddrs && q.pubkey == p.pubkey
    &&& q.alive == p.alive && q.connected_at == p.connected_at && q.disconnected_at == p.disconnected_at
    &&& match p.trust_metric {
        None => q.trust_metric.is_none(),
        Some(m0) => q.trust_metric.is_some() && crate::trust::ticked(m0, q.trust_metric.unwrap(), now),
    }
}

/// The dial has not run out of time at `now`.
pub open spec fn attempt_live(a: (Seq<u8>, usize, u64), now: u64) -> bool {
    now <= a.2 + MAX_CONNECTING_TIMEOUT
}

impl PeerManager {
    fn eligible_index(&self, i: usize, now: u64) -> (r: bool)
        requires
            self.wf(),
            i < self.registry.peers@.len(),
        ensures
            r == routine_eligible(*self, self.registry.peers@[i as int], now),
    {
        let p = &self.registry.peers[i];
        let state_ok = p.connectedness == Connectedness::NotConnected || p.connectedness == Connectedness::CanConnect;
        let allowed = !self.config.allowlist_only || p.tags.always_allow;
        let banned = match p.tags.ban_until {
            Some(until) => now < until,
            None => false,
        };
        let ready = p.retry.ready(now);
        let has_addr = p.multiaddrs.connectable_len() > 0;
        let idle = match self.find_attempt(&p.id) {
            Some(k) => {
                assert(attempts_view(self.connecting@)[k as int].0 == p.id@);
                false
            },
            None => true,
        };
        state_ok && allowed && !banned && ready && has_addr && idle
    }

    fn is_good_index(&self, i: usize) -> (r: bool)
        requires
            self.wf(),
            i < self.registry.peers@.len(),
        ensures
            r == good_peer(self.registry.peers@[i as int]),
    {
        match self.registry.peers[i].trust_score() {
            Some(s) => s >= crate::trust::GOOD_TRUST_SCORE,
            None => false,
        }
    }

    /// Up to `limit` peers the routine may dial, peers with a good score
    /// strictly first. Among equals the scan starts at the peer that `seed`
    /// picks and wraps around, so that a random seed gives a random choice.
    pub fn select_candidates(&self, now: u64, limit: usize, seed: u64) -> (r: Vec<usize>)
        requires
            self.wf(),
        ensures
            r@.len() <= limit,
            forall|k: int| 0 <= k < r@.len() ==> (#[trigger] r@[k]) < self.registry.peers@.len()
                && routine_eligible(*self, self.registry.peers@[r@[k] as int], now),
            forall|k: int, l: int| 0 <= k < r@.len() && 0 <= l < r@.len() && k != l ==> r@[k] != r@[l],
            // a peer without a good score is chosen only once every eligible good peer is
            (exists|k: int| 0 <= k < r@.len() && !good_peer(self.registry.peers@[(#[trigger] r@[k]) as int])) ==> forall|j: int|
                0 <= j < self.registry.peers@.len() && routine_eligible(*self, #[trigger] self.registry.peers@[j], now)
                    && good_peer(self.registry.peers@[j]) ==> r@.contains(j as usize),
            // the limit is reached unless every eligible peer is chosen
            r@.len() < limit ==> forall|j: int| 0 <= j < self.registry.peers@.len()
                && routine_eligible(*self, #[trigger] self.registry.peers@[j], now) ==> r@.contains(j as usize),
    {
        let n = self.registry.peers.len();
        let mut r: Vec<usize> = Vec::new();
        if n == 0 {
            return r;
        }
        let start = (seed % (n as u64)) as usize;
        let mut i: usize = 0;
        while i < n && r.len() < limit
            invariant
                self.wf(),
                n == self.registry.peers@.len(),
                n > 0,
                start < n,
                i <= n,
                r@.len() <= limit,
                forall|k: int| 0 <= k < r@.len() ==> (#[trigger] r@[k]) < n && rot(r@[k] as int, start as int, n as int) < i
                    && routine_eligible(*self, self.registry.peers@[r@[k] as int], now)
                    && good_peer(self.registry.peers@[r@[k] as int]),
                forall|k: int, l: int| 0 <= k < r@.len() && 0 <= l < r@.len() && k != l ==> r@[k] != r@[l],
                forall|j: int| 0 <= j < n && rot(j, start as int, n as int) < i && routine_eligible(*self, #[trigger] self.registry.peers@[j], now)
                    && good_peer(self.registry.peers@[j]) ==> r@.contains(j as usize),
            decreases n - i,
        {
            let idx = if i < n - start { start + i } else { i - (n - start) };
            assert(rot(idx as int, start as int, n as int) == i);
            if self.eligible_index(idx, now) && self.is_good_index(idx) {
                let ghost r0 = r@;
                r.push(idx);
                proof {
                    assert(r@[r0.len() as int] == idx);
                    assert forall|j: int| 0 <= j < n && rot(j, start as int, n as int) < i + 1
                        && routine_eligible(*self, #[trigger] self.registry.peers@[j], now)
                        && good_peer(self.registry.peers@[j]) implies r@.contains(j as usize) by {
                        if rot(j, start as int, n as int) < i {
                            let k = choose|k: int| 0 <= k < r0.len() && r0[k] == j as usize;
                            assert(r@[k] == j as usize);
                        } else {
                            lemma_rot_unique(j, idx as int, start as int, n as int);
                        }
                    }
                    assert forall|k: int, l: int| 0 <= k < r@.len() && 0 <= l < r@.len() && k != l implies r@[k] != r@[l] by {
                        if k < r0.len() && l < r0.len() {
                            assert(r@[k] == r0[k] && r@[l] == r0[l]);
                        } else if k < r0.len() {
                            assert(r@[k] == r0[k]);
                        } else {
                            assert(r@[l] == r0[l]);
                        }
                    }
                }
            } else {
                proof {
                    assert forall|j: int| 0 <= j < n && rot(j, start as int, n as int) < i + 1
                        && routine_eligible(*self, #[trigger] self.registry.peers@[j], now)
                        && good_peer(self.registry.peers@[j]) implies r@.contains(j as usize) by {
                        if rot(j, start as int, n as int) == i {
                            lemma_rot_unique(j, idx as int, start as int, n as int);
                        }
                    }
                }
            }
            i = i + 1;
        }
        proof {
            if r@.len() < limit {
                assert(i == n);
            }
            assert forall|j: int| 0 <= j < n implies rot(j, start as int, n as int) < n by {}
        }
        let ghost pass1 = r@;
        let ghost pass1_done = i == n;
        let mut t: usize = 0;
        if r.len() < limit {
            while t < n && r.len() < limit
                invariant
                    self.wf(),
                    n == self.registry.peers@.len(),
                    n > 0,
                    start < n,
                    t <= n,
                    r@.len() <= limit,
                    r@.len() >= pass1.len(),
                    r@.subrange(0, pass1.len() as int) == pass1,
                    forall|k: int| 0 <= k < pass1.len() ==> good_peer(self.registry.peers@[(#[trigger] pass1[k]) as int]),
                    forall|j: int| 0 <= j < n && routine_eligible(*self, #[trigger] self.registry.peers@[j], now)
                        && good_peer(self.registry.peers@[j]) ==> pass1.contains(j as usize),
                    forall|k: int| 0 <= k < r@.len() ==> (#[trigger] r@[k]) < n && routine_eligible(*self, self.registry.peers@[r@[k] as int], now),
                    forall|k: int| pass1.len() <= k < r@.len() ==> rot((#[trigger] r@[k]) as int, start as int, n as int) < t
                        && !good_peer(self.registry.peers@[r@[k] as int]),
                    forall|k: int, l: int| 0 <= k < r@.len() && 0 <= l < r@.len() && k != l ==> r@[k] != r@[l],
                    forall|j: int| 0 <= j < n && rot(j, start as int, n as int) < t
                        && routine_eligible(*self, #[trigger] self.registry.peers@[j], now) ==> r@.contains(j as usize),
                decreases n - t,
            {
                let idx = if t < n - start { start + t } else { t - (n - start) };
                assert(rot(idx as int, start as int, n as int) == t);
                if self.eligible_index(idx, now) && !self.is_good_index(idx) {
                    let ghost r0 = r@;
                    r.push(idx);
                    proof {
                        assert(r@[r0.len() as int] == idx);
                        assert(r@.subrange(0, pass1.len() as int) =~= r0.subrange(0, pass1.len() as int));
                        assert forall|k: int, l: int| 0 <= k < r@.len() && 0 <= l < r@.len() && k != l implies r@[k] != r@[l] by {
                            if k < r0.len() && l < r0.len() {
                                assert(r@[k] == r0[k] && r@[l] == r0[l]);
                            } else if k < r0.len() {
                                assert(r@[k] == r0[k]);
                                if k < pass1.len() {
                                    assert(r0[k] == pass1[k]);
                                }
                            } else {
                                assert(r@[l] == r0[l]);
                                if l < pass1.len() {
                                    assert(r0[l] == pass1[l]);
                                }
                            }
                        }
                        assert forall|j: int| 0 <= j < n && rot(j, start as int, n as int) < t + 1
                            && routine_eligible(*self, #[trigger] self.registry.peers@[j], now)
                            implies r@.contains(j as usize) by {
                            if rot(j, start as int, n as int) < t {
                                let k = choose|k: int| 0 <= k < r0.len() && r0[k] == j as usize;
                                assert(r@[k] == j as usize);
                            } else {
                                lemma_rot_unique(j, idx as int, start as int, n as int);
                            }
                        }
                    }
                } else {
                    proof {
                        assert forall|j: int| 0 <= j < n && rot(j, start as int, n as int) < t + 1
                            && routine_eligible(*self, #[trigger] self.registry.peers@[j], now)
                            implies r@.contains(j as usize) by {
                            if rot(j, start as int, n as int) == t {
                                lemma_rot_unique(j, idx as int, start as int, n as int);
                                assert(good_peer(self.registry.peers@[j]));
                                let k = choose|k: int| 0 <= k < pass1.len() && pass1[k] == j as usize;
                                assert(r@[k] == pass1[k]);
                            }
                        }
                    }
                }
                t = t + 1;
            }
            proof {
                assert forall|j: int| 0 <= j < n && routine_eligible(*self, #[trigger] self.registry.peers@[j], now)
                    && good_peer(self.registry.peers@[j]) implies r@.contains(j as usize) by {
                    let k = choose|k: int| 0 <= k < pass1.len() && pass1[k] == j as usize;
                    assert(r@[k] == pass1[k]);
                }
                if r@.len() < limit {
                    assert(t == n);
                    assert forall|j: int| 0 <= j < n implies rot(j, start as int, n as int) < n by {}
                }
            }
        }
        r
    }

    pub open spec fn eligible_index_spec(&self, i: usize, now: u64) -> bool {
        routine_eligible(*self, self.registry.peers@[i as int], now)
    }
}

impl PeerManager {
    /// Drops the dials that ran out of time at `now`; their peers may be
    /// dialled again.
    pub fn sweep_connecting(&mut self, now: u64)
        requires
            old(self).wf(),
        ensures
            final(self).wf(),
            final(self).config == old(self).config,
            final(self).registry.sessions@ == old(self).registry.sessions@,
            final(self).registry.listen@ == old(self).registry.listen@,
            final(self).registry.peers@.len() == old(self).registry.peers@.len(),
            forall|k: int| 0 <= k < final(self).connecting@.len() ==> attempt_live((#[trigger] final(self).connecting@[k])@, now),
            forall|k: int| 0 <= k < old(self).connecting@.len() && attempt_live((#[trigger] old(self).connecting@[k])@, now)
                ==> attempts_view(final(self).connecting@).contains(old(self).connecting@[k]@),
            forall|j: int| 0 <= j < final(self).registry.peers@.len() ==> (#[trigger] final(self).registry.peers@[j]).connectedness
                == Connectedness::Connecting ==> has_attempt(attempts_view(final(self).connecting@), final(self).registry.peers@[j].id@),
            sweep_post(*old(self), *final(self), now),
    {
        let ghost all = attempts_view(self.connecting@);
        let mut kept: Vec<ConnectingAttempt> = Vec::new();
        let mut k: usize = 0;
        while k < self.connecting.len()
            invariant
                self.wf(),
                *self == *old(self),
                k <= self.connecting@.len(),
                forall|x: int| 0 <= x < kept@.len() ==> attempt_live((#[trigger] kept@[x])@, now),
                forall|x: int| 0 <= x < k && attempt_live((#[trigger] self.connecting@[x])@, now)
                    ==> attempts_view(kept@).contains(self.connecting@[x]@),
                all == attempts_view(self.connecting@),
                attempts_view(kept@) == live_filter(all.subrange(0, k as int), now),
            decreases self.connecting@.len() - k,
        {
            assert(all.subrange(0, k + 1).drop_last() =~= all.subrange(0, k as int));
            assert(all.subrange(0, k + 1).last() == self.connecting@[k as int]@);
            if now <= self.connecting[k].started_at || now - self.connecting[k].started_at <= MAX_CONNECTING_TIMEOUT {
                let ghost k0 = kept@;
                kept.push(self.connecting[k].copy());
                proof {
                    assert(attempts_view(kept@) =~= attempts_view(k0).push(self.connecting@[k as int]@));
                    assert(attempts_view(kept@)[k0.len() as int] == self.connecting@[k as int]@);
                    assert forall|x: int| 0 <= x < k + 1 && attempt_live((#[trigger] self.connecting@[x])@, now)
                        implies attempts_view(kept@).contains(self.connecting@[x]@) by {
                        if x < k {
                            let y = choose|y: int| 0 <= y < attempts_view(k0).len() && attempts_view(k0)[y] == self.connecting@[x]@;
                            assert(attempts_view(kept@)[y] == attempts_view(k0)[y]);
                        }
                    }
                }
            }
            k = k + 1;
        }
        assert(all.subrange(0, all.len() as int) =~= all);
        self.connecting = kept;
        let ghost mid = self.registry.peers@;
        let mut i: usize = 0;
        while i < self.registry.peers.len()
            invariant
                self.wf(),
                self.config == old(self).config,
                self.registry.sessions@ == old(self).registry.sessions@,
                self.registry.listen@ == old(self).registry.listen@,
                self.registry.peers@.len() == old(self).registry.peers@.len(),
                forall|x: int| 0 <= x < self.connecting@.len() ==> attempt_live((#[trigger] self.connecting@[x])@, now),
                forall|x: int| 0 <= x < old(self).connecting@.len() && attempt_live((#[trigger] old(self).connecting@[x])@, now)
                    ==> attempts_view(self.connecting@).contains(old(self).connecting@[x]@),
                i <= self.registry.peers@.len(),
                forall|j: int| 0 <= j < i ==> (#[trigger] self.registry.peers@[j]).connectedness
                    == Connectedness::Connecting ==> has_attempt(attempts_view(self.connecting@), self.registry.peers@[j].id@),
                attempts_view(self.connecting@) == live_filter(attempts_view(old(self).connecting@), now),
                mid == old(self).registry.peers@,
                forall|j: int| 0 <= j < i ==> (#[trigger] self.registry.peers@[j]) == swept_peer(mid[j], attempts_view(self.connecting@)),
                forall|j: int| i <= j < mid.len() ==> (#[trigger] self.registry.peers@[j]) == mid[j],
            decreases self.registry.peers@.len() - i,
        {
            if self.registry.peers[i].connectedness == Connectedness::Connecting {
                let found = self.find_attempt(&self.registry.peers[i].id);
                if found.is_none() {
                    let ghost before = self.registry.peers@;
                    self.registry.peers[i].connectedness = Connectedness::CanConnect;
                    proof {
                        lemma_peer_touched(before, self.registry.peers@, self.registry.sessions@, i as int);
                        assert(self.registry.peers@[i as int] == swept_peer(mid[i as int], attempts_view(self.connecting@)));
                        assert forall|j: int| 0 <= j < i + 1 implies ((#[trigger] self.registry.peers@[j]).connectedness
                            == Connectedness::Connecting ==> has_attempt(attempts_view(self.connecting@), self.registry.peers@[j].id@)) by {
                            if j < i {
                                assert(self.registry.peers@[j] == before[j]);
                            }
                        }
                    }
                } else {
                    proof {
                        let k = found.unwrap() as int;
                        assert(attempts_view(self.connecting@)[k].0 == self.registry.peers@[i as int].id@);
                    }
                }
            }
            i = i + 1;
        }
    }

    /// Closes the running interval of every started metric whose interval has
    /// passed at `now`.
    pub fn tick_metrics(&mut self, now: u64)
        requires
            old(self).wf(),
        ensures
            final(self).wf(),
            final(self).config == old(self).config,
            final(self).connecting@ == old(self).connecting@,
            final(self).registry.sessions@ == old(self).registry.sessions@,
            final(self).registry.listen@ == old(self).registry.listen@,
            final(self).registry.peers@.len() == old(self).registry.peers@.len(),
            forall|j: int| 0 <= j < old(self).registry.peers@.len() ==> metric_ticked(
                #[trigger] old(self).registry.peers@[j], final(self).registry.peers@[j], now),
            tick_post(*old(self), *final(self), now),
    {
        let mut i: usize = 0;
        while i < self.registry.peers.len()
            invariant
                self.wf(),
                self.config == old(self).config,
                self.connecting@ == old(self).connecting@,
                self.registry.sessions@ == old(self).registry.sessions@,
                self.registry.listen@ == old(self).registry.listen@,
                self.registry.peers@.len() == old(self).registry.peers@.len(),
                i <= self.registry.peers@.len(),
                forall|j: int| 0 <= j < i ==> metric_ticked(
                    #[trigger] old(self).registry.peers@[j], self.registry.peers@[j], now),
                forall|j: int| i <= j < old(self).registry.peers@.len() ==> (#[trigger] self.registry.peers@[j]) == old(self).registry.peers@[j],
            decreases self.registry.peers@.len() - i,
        {
            let ghost before = self.registry.peers@;
            match &mut self.registry.peers[i].trust_metric {
                Some(m) => m.tick(now),
                None => {},
            }
            proof {
                lemma_peer_touched(before, self.registry.peers@, self.registry.sessions@, i as int);
                assert forall|j: int| 0 <= j < i + 1 implies metric_ticked(
                    #[trigger] old(self).registry.peers@[j], self.registry.peers@[j], now) by {
                    if j < i {
                        assert(self.registry.peers@[j] == before[j]);
                    }
                }
            }
            i = i + 1;
        }
    }

    /// Starts up to `dial_limit` dials of peers eligible at `now`, good ones
    /// first, equals in an order that `seed` picks: each becomes `Connecting`
    /// with a dial started at `now`, and one `Connect` with its dialable
    /// addresses goes out per peer. Gives the number of peers dialled.
    pub fn dial_round(&mut self, now: u64, seed: u64, out: &mut Vec<ConnectionEvent>) -> (r: usize)
        requires
            old(self).wf(),
        ensures
            dial_post(*old(self), *final(self), old(out)@, final(out)@, r as int, now),
    {
        let ghost s1 = *self;
        let ghost out0 = out@;
        let busy = self.registry.outbound_count() as u128 + self.connecting.len() as u128;
        let limit: usize = if busy < self.config.outbound_conn_limit as u128 {
            (self.config.outbound_conn_limit - (busy as usize)).saturating_add(MAX_CONNECTING_MARGIN)
        } else {
            0
        };
        assert(limit == dial_limit(s1));
        let chosen = self.select_candidates(now, limit, seed);
        let n = self.registry.peers.len();
        let mut k: usize = 0;
        while k < chosen.len()
            invariant
                self.wf(),
                s1.wf(),
                n == s1.registry.peers@.len(),
                self.config == s1.config,
                self.registry.sessions@ == s1.registry.sessions@,
                self.registry.listen@ == s1.registry.listen@,
                self.registry.peers@.len() == n,
                k <= chosen@.len(),
                chosen@.len() <= limit,
                limit == dial_limit(s1),
                forall|x: int| 0 <= x < chosen@.len() ==> (#[trigger] chosen@[x]) < n
                    && routine_eligible(s1, s1.registry.peers@[chosen@[x] as int], now),
                forall|x: int, y: int| 0 <= x < chosen@.len() && 0 <= y < chosen@.len() && x != y ==> chosen@[x] != chosen@[y],
                forall|x: int| k <= x < chosen@.len() ==> self.registry.peers@[(#[trigger] chosen@[x]) as int] == s1.registry.peers@[chosen@[x] as int],
                forall|j: int| 0 <= j < n && !chosen@.contains(j as usize) ==> (#[trigger] self.registry.peers@[j]) == s1.registry.peers@[j],
                forall|x: int| 0 <= x < k ==> ({
                    let (p, q) = (s1.registry.peers@[(#[trigger] chosen@[x]) as int], self.registry.peers@[chosen@[x] as int]);
                    &&& q.connectedness == Connectedness::Connecting
                    &&& q.id == p.id && q.multiaddrs == p.multiaddrs && q.tags == p.tags && q.retry == p.retry
                    &&& attempts_view(self.connecting@).contains(
                        (p.id@, crate::addr::connectable_addrs(p.multiaddrs@).len() as usize, now))
                    &&& connect_to(out@[out0.len() + x], p)
                }),
                forall|e: (Seq<u8>, usize, u64)| attempts_view(s1.connecting@).contains(e) ==> attempts_view(self.connecting@).contains(e),
                forall|e: (Seq<u8>, usize, u64)| #[trigger] attempts_view(self.connecting@).contains(e) ==> attempts_view(s1.connecting@).contains(e)
                    || exists|x: int| 0 <= x < k && e.0 == s1.registry.peers@[(#[trigger] chosen@[x]) as int].id@,
                out@.len() == out0.len() + k,
                out@.subrange(0, out0.len() as int) == out0,
            decreases chosen@.len() - k,
        {
            let i = chosen[k];
            let id = self.registry.peers[i].id.copy();
            let ghost c0 = attempts_view(self.connecting@);
            let ghost before = self.registry.peers@;
            proof {
                assert(before[i as int] == s1.registry.peers@[i as int]);
                // an eligible peer has no dial outstanding, here as before
                assert(!has_attempt(c0, id@)) by {
                    if has_attempt(c0, id@) {
                        let y = choose|y: int| 0 <= y < c0.len() && (#[trigger] c0[y]).0 == id@;
                        let e = c0[y];
                        assert(c0.contains(e));
                        if attempts_view(s1.connecting@).contains(e) {
                            let z = choose|z: int| 0 <= z < attempts_view(s1.connecting@).len() && attempts_view(s1.connecting@)[z] == e;
                            assert(has_attempt(attempts_view(s1.connecting@), id@));
                        } else {
                            // a dial started in this round names an earlier chosen peer
                            let x = choose|x: int| 0 <= x < k && e.0 == s1.registry.peers@[(#[trigger] chosen@[x]) as int].id@;
                            assert(chosen@[x] != chosen@[k as int]);
                            assert(s1.registry.peers@[chosen@[x] as int].id@ != s1.registry.peers@[chosen@[k as int] as int].id@);
                        }
                    }
                }
                lemma_without_absent_id(c0, id@);
            }
            let addrs = self.dial_index(i, now);
            let ghost o0 = out@;
            out.push(ConnectionEvent::Connect { addrs, target: Some(id) });
            proof {
                let c1 = attempts_view(self.connecting@);
                assert(c1 =~= c0.push(c1.last()));
                assert(out@.subrange(0, out0.len() as int) =~= o0.subrange(0, out0.len() as int));
                assert forall|x: int| k + 1 <= x < chosen@.len() implies self.registry.peers@[(#[trigger] chosen@[x]) as int]
                    == s1.registry.peers@[chosen@[x] as int] by {
                    assert(chosen@[x] != chosen@[k as int]);
                }
                assert forall|j: int| 0 <= j < n && !chosen@.contains(j as usize) implies (#[trigger] self.registry.peers@[j])
                    == s1.registry.peers@[j] by {
                    if j == i {
                        assert(chosen@[k as int] == i);
                    }
                }
                assert forall|e: (Seq<u8>, usize, u64)| attempts_view(s1.connecting@).contains(e) implies c1.contains(e) by {
                    let y = choose|y: int| 0 <= y < c0.len() && c0[y] == e;
                    assert(c1[y] == e);
                }
                assert forall|e: (Seq<u8>, usize, u64)| #[trigger] c1.contains(e) implies attempts_view(s1.connecting@).contains(e)
                    || exists|x: int| 0 <= x < k + 1 && e.0 == s1.registry.peers@[(#[trigger] chosen@[x]) as int].id@ by {
                    let y = choose|y: int| 0 <= y < c1.len() && c1[y] == e;
                    if y < c0.len() {
                        assert(c0[y] == e);
                        assert(c0.contains(e));
                        if !attempts_view(s1.connecting@).contains(e) {
                            let x = choose|x: int| 0 <= x < k && e.0 == s1.registry.peers@[(#[trigger] chosen@[x]) as int].id@;
                            assert(0 <= x < k + 1);
                        }
                    } else {
                        assert(e.0 == s1.registry.peers@[chosen@[k as int] as int].id@);
                    }
                }
                assert forall|x: int| 0 <= x < k + 1 implies ({
                    let (p, q) = (s1.registry.peers@[(#[trigger] chosen@[x]) as int], self.registry.peers@[chosen@[x] as int]);
                    &&& q.connectedness == Connectedness::Connecting
                    &&& q.id == p.id && q.multiaddrs == p.multiaddrs && q.tags == p.tags && q.retry == p.retry
                    &&& c1.contains((p.id@, crate::addr::connectable_addrs(p.multiaddrs@).len() as usize, now))
                    &&& connect_to(out@[out0.len() + x], p)
                }) by {
                    if x < k {
                        assert(chosen@[x] != chosen@[k as int]);
                        assert(self.registry.peers@[chosen@[x] as int] == before[chosen@[x] as int]);
                        let p = s1.registry.peers@[chosen@[x] as int];
                        let e = (p.id@, crate::addr::connectable_addrs(p.multiaddrs@).len() as usize, now);
                        let y = choose|y: int| 0 <= y < c0.len() && c0[y] == e;
                        assert(c1[y] == e);
                        assert(out@[out0.len() + x] == o0[out0.len() + x]);
                    } else {
                        assert(c1[c1.len() - 1] == c1.last());
                        assert(out@[out0.len() + x] == ConnectionEvent::Connect { addrs, target: Some(id) });
                    }
                }
            }
            k = k + 1;
        }
        proof {
            let m1 = *self;
            let out1 = out@;
            assert forall|j: int| 0 <= j < n implies (#[trigger] dialled(s1, m1, j, now)) == chosen@.contains(j as usize) by {
                if chosen@.contains(j as usize) {
                    let x = choose|x: int| 0 <= x < chosen@.len() && chosen@[x] == j as usize;
                    assert(routine_eligible(s1, s1.registry.peers@[chosen@[x] as int], now));
                }
            }
            assert forall|x: int| out0.len() <= x < out1.len() implies #[trigger] names_dialled(s1, m1, out1[x], now) by {
                let c = chosen@[x - out0.len()] as int;
                assert(chosen@.contains(c as usize));
                assert(dialled(s1, m1, c, now));
                assert(connect_to(out1[x], s1.registry.peers@[c]));
            }
            assert forall|x: int, y: int, j: int|
                out0.len() <= x < out1.len() && out0.len() <= y < out1.len() && x != y && 0 <= j < n
                implies !(#[trigger] connect_to(out1[x], s1.registry.peers@[j]) && #[trigger] connect_to(out1[y], s1.registry.peers@[j])) by {
                let cx = chosen@[x - out0.len()] as int;
                let cy = chosen@[y - out0.len()] as int;
                assert(connect_to(out1[x], s1.registry.peers@[cx]));
                assert(connect_to(out1[y], s1.registry.peers@[cy]));
                if connect_to(out1[x], s1.registry.peers@[j]) && connect_to(out1[y], s1.registry.peers@[j]) {
                    assert(s1.registry.peers@[cx].id@ == s1.registry.peers@[j].id@);
                    assert(s1.registry.peers@[cy].id@ == s1.registry.peers@[j].id@);
                    assert(cx != cy);
                }
            }
            assert forall|j: int| 0 <= j < n && #[trigger] dialled(s1, m1, j, now) implies
                exists|x: int| out0.len() <= x < out1.len() && #[trigger] connect_to(out1[x], s1.registry.peers@[j]) by {
                let x = choose|x: int| 0 <= x < chosen@.len() && chosen@[x] == j as usize;
                assert(connect_to(out1[out0.len() + x], s1.registry.peers@[j]));
            }
        }
        chosen.len()
    }

    /// The periodic routine at `now`: expired dials are dropped, metrics move
    /// to new intervals, then `dial_round` dials up to the outbound deficit
    /// plus `MAX_CONNECTING_MARGIN` eligible peers, good ones first, equals in
    /// an order that `seed` picks. Gives the number of peers dialled.
    pub fn routine(&mut self, now: u64, seed: u64, out: &mut Vec<ConnectionEvent>) -> (r: usize)
        requires
            old(self).wf(),
        ensures
            final(self).wf(),
            final(self).config == old(self).config,
            final(self).registry.sessions@ == old(self).registry.sessions@,
            final(self).registry.listen@ == old(self).registry.listen@,
            exists|swept: PeerManager, ticked: PeerManager|
                #[trigger] sweep_post(*old(self), swept, now) && #[trigger] tick_post(swept, ticked, now) && dial_post(
                    ticked,
                    *final(self),
                    old(out)@,
                    final(out)@,
                    r as int,
                    now,
                ),
    {
        self.sweep_connecting(now);
        let ghost swept = *self;
        self.tick_metrics(now);
        let ghost ticked = *self;
        let r = self.dial_round(now, seed, out);
        assert(dial_post(ticked, *self, old(out)@, out@, r as int, now));
        r
    }
}

/// An event from the transport or a protocol.
pub enum PeerManagerEvent {
    /// `key_id` is the id that `pubkey` hashes to.
    NewSession { pid: PeerId, pubkey: Vec<u8>, key_id: PeerId, ctx: SessionContext },
    UnidentifiedSession { pid: PeerId, ctx: SessionContext },
    SessionClosed { pid: PeerId, sid: u64 },
    SessionFailed { sid: u64, kind: SessionErrorKind },
    SessionBlocked { sid: u64 },
    ConnectFailed { addr: Multiaddr, kind: ConnectionErrorKind },
    Misbehave { pid: PeerId, kind: MisbehaviorKind },
    PeerAlive { pid: PeerId },
    DiscoverMultiAddrs { addrs: Vec<Multiaddr> },
    IdentifiedAddrs { pid: PeerId, addrs: Vec<Multiaddr> },
    RepeatedConnection { ty: SessionType, sid: u64, addr: Multiaddr },
    AddNewListenAddr { addr: Multiaddr },
    RemoveListenAddr { addr: Multiaddr },
    ConnectPeersNow { pids: Vec<PeerId> },
    TrustMetric { pid: PeerId, feedback: TrustFeedback },
}

/// At the connection limit, an outbound newcomer without a score is refused.
pub proof fn lemma_full_without_score_rejected(m: PeerManager, pid: Seq<u8>, ctx: SessionContext, now: u64)
    requires
        ctx.ty == SessionType::Outbound,
        m.registry.sessions@.len() == m.config.max_connections,
        verdict_spec(m, pid, ctx, now) != Verdict::Reject(RejectReason::NotAllowed),
        verdict_spec(m, pid, ctx, now) != Verdict::Reject(RejectReason::Banned),
        verdict_spec(m, pid, ctx, now) != Verdict::Reject(RejectReason::SameIp),
        verdict_spec(m, pid, ctx, now) != Verdict::Reject(RejectReason::Duplicate),
        !always_allowed(m.registry.peers@, pid),
        peer_of(m.registry.peers@, pid).is_none() || incoming_score(peer_of(m.registry.peers@, pid).unwrap(), now).is_none(),
    ensures
        verdict_spec(m, pid, ctx, now) == Verdict::Reject(RejectReason::MaxConnections),
{
}

/// At the connection limit, an outbound newcomer scoring above an eligible
/// victim replaces it.
pub proof fn lemma_full_with_better_score_replaces(
    m: PeerManager,
    pid: Seq<u8>,
    ctx: SessionContext,
    now: u64,
    victim: int,
)
    requires
        ctx.ty == SessionType::Outbound,
        m.registry.sessions@.len() == m.config.max_connections,
        verdict_spec(m, pid, ctx, now) != Verdict::Reject(RejectReason::NotAllowed),
        verdict_spec(m, pid, ctx, now) != Verdict::Reject(RejectReason::Banned),
        verdict_spec(m, pid, ctx, now) != Verdict::Reject(RejectReason::SameIp),
        verdict_spec(m, pid, ctx, now) != Verdict::Reject(RejectReason::Duplicate),
        !always_allowed(m.registry.peers@, pid),
        peer_of(m.registry.peers@, pid).is_some(),
        incoming_score(peer_of(m.registry.peers@, pid).unwrap(), now).is_some(),
        victim_ok(m, victim, incoming_score(peer_of(m.registry.peers@, pid).unwrap(), now).unwrap()),
    ensures
        verdict_spec(m, pid, ctx, now) == Verdict::Replace,
{
    let s = incoming_score(peer_of(m.registry.peers@, pid).unwrap(), now).unwrap();
    assert(has_victim(m, s));
    assert(score_of(m.registry.peers@[victim]).unwrap() < s);
}

/// At the same-IP limit, a newcomer without `AlwaysAllow` from that address
/// is refused and, by `new_session`, banned for `SAME_IP_LIMIT_BAN`.
pub proof fn lemma_same_ip_limit_rejects(m: PeerManager, pid: Seq<u8>, ctx: SessionContext, now: u64)
    requires
        same_ip_count(m.registry.sessions@, ctx.addr.ip) == m.config.same_ip_conn_limit,
        !m.config.allowlist_only,
        !always_allowed(m.registry.peers@, pid),
        peer_of(m.registry.peers@, pid).is_none() || !crate::tags::ban_in_force(peer_of(m.registry.peers@, pid).unwrap().tags, now),
    ensures
        verdict_spec(m, pid, ctx, now) == Verdict::Reject(RejectReason::SameIp),
{
}

impl PeerManager {
    /// A session that has not been identified: the ban and same-IP rules
    /// apply (with the same ban), and the session is always closed.
    pub fn unidentified_session(&mut self, pid: &PeerId, ctx: SessionContext, now: u64, out: &mut Vec<ConnectionEvent>)
        requires
            old(self).wf(),
        ensures
            final(self).wf(),
            final(self).config == old(self).config,
            final(self).registry.sessions@ == old(self).registry.sessions@,
            final(self).registry.listen@ == old(self).registry.listen@,
            final(self).connecting@ == old(self).connecting@,
            final(out)@ == old(out)@.push(ConnectionEvent::Disconnect(ctx.sid)),
            has_peer(final(self).registry.peers@, pid@),
            verdict_spec(*old(self), pid@, ctx, now) == Verdict::Reject(RejectReason::SameIp) ==> peer_of(
                final(self).registry.peers@,
                pid@,
            ).unwrap().tags.ban_until == Some(crate::tags::sat_add(now, SAME_IP_LIMIT_BAN)),
    {
        let ghost s0 = *self;
        let i = self.peer_index_or_insert(pid);
        let ghost s1 = *self;
        proof {
            lemma_peer_of(s1.registry.peers@, s1.registry.sessions@, i as int);
            if has_peer(s0.registry.peers@, pid@) {
                assert forall|v: int, x: u64| victim_ok(s1, v, x) == victim_ok(s0, v, x) by {}
                assert forall|x: u64| has_victim(s1, x) == has_victim(s0, x) by {
                    if has_victim(s1, x) {
                        let v = choose|v: int| victim_ok(s1, v, x);
                        assert(victim_ok(s0, v, x));
                    }
                    if has_victim(s0, x) {
                        let v = choose|v: int| victim_ok(s0, v, x);
                        assert(victim_ok(s1, v, x));
                    }
                }
            }
        }
        let d = self.decide(i, &ctx, now);
        if d == Admission::Reject(RejectReason::SameIp) {
            let ghost before = self.registry.peers@;
            self.registry.peers[i].tags.insert_ban(now, SAME_IP_LIMIT_BAN);
            proof {
                lemma_peer_touched(before, self.registry.peers@, self.registry.sessions@, i as int);
            }
        }
        out.push(ConnectionEvent::Disconnect(ctx.sid));
        proof {
            lemma_peer_of(self.registry.peers@, self.registry.sessions@, i as int);
        }
    }

    /// Handles one event at `now`; `jitter` is a random number of seconds for
    /// back-off. Commands for the transport are appended to `out`.
    pub fn handle_event(&mut self, event: PeerManagerEvent, now: u64, jitter: u64, out: &mut Vec<ConnectionEvent>)
        requires
            old(self).wf(),
        ensures
            final(self).wf(),
            final(self).config == old(self).config,
            event matches PeerManagerEvent::NewSession { pid, .. } ==> has_peer(final(self).registry.peers@, pid@),
            event matches PeerManagerEvent::UnidentifiedSession { ctx, .. } ==> final(out)@ == old(out)@.push(
                ConnectionEvent::Disconnect(ctx.sid),
            ) && final(self).registry.sessions@ == old(self).registry.sessions@,
            event matches PeerManagerEvent::SessionClosed { sid, .. } ==> !crate::registry::has_sid(final(self).registry.sessions@, sid),
            event matches PeerManagerEvent::SessionFailed { sid, .. } ==> !crate::registry::has_sid(final(self).registry.sessions@, sid)
                && final(out)@ == old(out)@.push(ConnectionEvent::Disconnect(sid)),
            event matches PeerManagerEvent::DiscoverMultiAddrs { addrs } ==> discover_post(*old(self), *final(self), addrs@),
            event matches PeerManagerEvent::AddNewListenAddr { addr } ==> crate::registry::listen_view(final(self).registry.listen@)
                == crate::registry::with_added(
                crate::registry::listen_view(old(self).registry.listen@),
                crate::addr::with_id(addr@, old(self).config.our_id@),
            ),
            event matches PeerManagerEvent::RemoveListenAddr { addr } ==> crate::registry::listen_view(final(self).registry.listen@)
                == crate::registry::without(
                crate::registry::listen_view(old(self).registry.listen@),
                crate::addr::with_id(addr@, old(self).config.our_id@),
            ),
            event matches PeerManagerEvent::TrustMetric { pid, .. } ==> (always_allowed(old(self).registry.peers@, pid@)
                ==> peer_of(final(self).registry.peers@, pid@).unwrap().tags == peer_of(old(self).registry.peers@, pid@).unwrap().tags
                && final(self).registry.sessions@ == old(self).registry.sessions@),
    {
        match event {
            PeerManagerEvent::NewSession { pid, pubkey, key_id, ctx } => {
                let _ = self.new_session(&pid, pubkey, &key_id, ctx, now, out);
            },
            PeerManagerEvent::UnidentifiedSession { pid, ctx } => {
                self.unidentified_session(&pid, ctx, now, out);
            },
            PeerManagerEvent::SessionClosed { pid, sid } => {
                self.session_closed(&pid, sid, now, jitter);
            },
            PeerManagerEvent::SessionFailed { sid, kind } => {
                self.session_failed(sid, kind, now, out);
            },
            PeerManagerEvent::SessionBlocked { sid } => {
                self.session_blocked(sid, now);
            },
            PeerManagerEvent::ConnectFailed { addr, kind } => {
                self.connect_failed(&addr, kind);
            },
            PeerManagerEvent::Misbehave { pid, kind } => {
                self.misbehave(&pid, kind, now, out);
            },
            PeerManagerEvent::PeerAlive { pid } => {
                self.peer_alive(&pid, now);
            },
            PeerManagerEvent::DiscoverMultiAddrs { addrs } => {
                self.discover_multi_addrs(&addrs);
            },
            PeerManagerEvent::IdentifiedAddrs { pid, addrs } => {
                self.identified_addrs(&pid, &addrs);
            },
            PeerManagerEvent::RepeatedConnection { ty, sid, addr } => {
                self.repeated_connection(ty, sid, &addr);
            },
            PeerManagerEvent::AddNewListenAddr { addr } => {
                self.add_new_listen_addr(&addr);
            },
            PeerManagerEvent::RemoveListenAddr { addr } => {
                self.remove_listen_addr(&addr);
            },
            PeerManagerEvent::ConnectPeersNow { pids } => {
                self.connect_peers_now(&pids, now, out);
            },
            PeerManagerEvent::TrustMetric { pid, feedback } => {
                self.trust_feedback(&pid, &feedback, now, out);
            },
        }
    }
}

/// A connected peer is referenced by exactly one session, which carries the
/// peer's session id; that session is returned.
pub proof fn lemma_connected_peer_session(m: PeerManager, i: int) -> (j: int)
    requires
        m.wf(),
        0 <= i < m.registry.peers@.len(),
        m.registry.peers@[i].connectedness == Connectedness::Connected,
    ensures
        0 <= j < m.registry.sessions@.len(),
        m.registry.sessions@[j].peer@ == m.registry.peers@[i].id@,
        m.registry.sessions@[j].sid == m.registry.peers@[i].session_id,
        forall|k: int|
            0 <= k < m.registry.sessions@.len() && (#[trigger] m.registry.sessions@[k]).peer@ == m.registry.peers@[i].id@ ==> k == j,
{
    assert(has_session_of(m.registry.sessions@, m.registry.peers@[i].id@));
    let j = choose|j: int| 0 <= j < m.registry.sessions@.len() && (#[trigger] m.registry.sessions@[j]).peer@ == m.registry.peers@[i].id@;
    assert forall|k: int|
        0 <= k < m.registry.sessions@.len() && (#[trigger] m.registry.sessions@[k]).peer@ == m.registry.peers@[i].id@
        implies k == j by {
        if k != j {
            assert(m.registry.sessions@[k].peer@ != m.registry.sessions@[j].peer@);
        }
    }
    j
}

/// In a well-formed state no two sessions share an id, sessions split into
/// inbound and outbound, every stored address ends in its peer's id, and a
/// peer past `MAX_RETRY_COUNT` retries is given up.
pub proof fn lemma_manager_invariants(m: PeerManager)
    requires
        m.wf(),
    ensures
        forall|j: int, k: int|
            0 <= j < m.registry.sessions@.len() && 0 <= k < m.registry.sessions@.len() && j != k
                ==> (#[trigger] m.registry.sessions@[j]).sid != (#[trigger] m.registry.sessions@[k]).sid,
        crate::registry::count_type(m.registry.sessions@, SessionType::Inbound) + crate::registry::count_type(
            m.registry.sessions@,
            SessionType::Outbound,
        ) == m.registry.sessions@.len(),
        forall|i: int| 0 <= i < m.registry.peers@.len() ==> crate::addr::addrs_carry(
            (#[trigger] m.registry.peers@[i]).multiaddrs@, m.registry.peers@[i].id@),
        forall|i: int|
            0 <= i < m.registry.peers@.len() && (#[trigger] m.registry.peers@[i]).retry.count > MAX_RETRY_COUNT
                ==> m.registry.peers@[i].connectedness == Connectedness::Unconnectable,
{
    crate::registry::lemma_count_total(m.registry.sessions@);
    assert forall|i: int| 0 <= i < m.registry.peers@.len() implies crate::addr::addrs_carry(
        (#[trigger] m.registry.peers@[i]).multiaddrs@, m.registry.peers@[i].id@) by {
        assert(m.registry.peers@[i].wf());
    }
}

impl PeerManager {
    /// Makes `pids` the consensus peers: `Consensus` is removed from every
    /// other peer and given to each listed one, created where unknown.
    pub fn tag_consensus(&mut self, pids: &Vec<PeerId>)
        requires
            old(self).wf(),
        ensures
            final(self).wf(),
            final(self).config == old(self).config,
            final(self).registry.sessions@ == old(self).registry.sessions@,
            final(self).connecting@ == old(self).connecting@,
            forall|k: int| 0 <= k < pids@.len() ==> has_peer(final(self).registry.peers@, (#[trigger] pids@[k])@),
            forall|i: int| 0 <= i < final(self).registry.peers@.len() ==> ((#[trigger] final(self).registry.peers@[i]).tags.consensus
                <==> exists|k: int| 0 <= k < pids@.len() && (#[trigger] pids@[k])@ == final(self).registry.peers@[i].id@),
            // the other tags stay as they were; peers created here hold no other tag
            final(self).registry.peers@.len() >= old(self).registry.peers@.len(),
            forall|j: int| 0 <= j < old(self).registry.peers@.len() ==> (#[trigger] final(self).registry.peers@[j]).id@ == old(self).registry.peers@[j].id@
                && final(self).registry.peers@[j].tags.always_allow == old(self).registry.peers@[j].tags.always_allow
                && final(self).registry.peers@[j].tags.ban_until == old(self).registry.peers@[j].tags.ban_until,
            forall|j: int| old(self).registry.peers@.len() <= j < final(self).registry.peers@.len() ==> !(#[trigger] final(self).registry.peers@[j]).tags.always_allow
                && final(self).registry.peers@[j].tags.ban_until.is_none(),
    {
        let mut i: usize = 0;
        while i < self.registry.peers.len()
            invariant
                self.wf(),
                self.config == old(self).config,
                self.registry.sessions@ == old(self).registry.sessions@,
                self.connecting@ == old(self).connecting@,
                i <= self.registry.peers@.len(),
                self.registry.peers@.len() == old(self).registry.peers@.len(),
                forall|j: int| 0 <= j < i ==> !(#[trigger] self.registry.peers@[j]).tags.consensus,
                forall|j: int| 0 <= j < self.registry.peers@.len() ==> (#[trigger] self.registry.peers@[j]).id@ == old(self).registry.peers@[j].id@
                && self.registry.peers@[j].tags.always_allow == old(self).registry.peers@[j].tags.always_allow
                && self.registry.peers@[j].tags.ban_until == old(self).registry.peers@[j].tags.ban_until,
            decreases self.registry.peers@.len() - i,
        {
            let ghost before = self.registry.peers@;
            self.registry.peers[i].tags.remove(TagKind::Consensus);
            proof {
                lemma_peer_touched(before, self.registry.peers@, self.registry.sessions@, i as int);
                assert forall|j: int| 0 <= j < i + 1 implies !(#[trigger] self.registry.peers@[j]).tags.consensus by {
                    if j < i {
                        assert(self.registry.peers@[j] == before[j]);
                    }
                }
            }
            i = i + 1;
        }
        let mut x: usize = 0;
        while x < pids.len()
            invariant
                self.wf(),
                self.config == old(self).config,
                self.registry.sessions@ == old(self).registry.sessions@,
                self.connecting@ == old(self).connecting@,
                x <= pids@.len(),
                self.registry.peers@.len() >= old(self).registry.peers@.len(),
                forall|j: int| 0 <= j < old(self).registry.peers@.len() ==> (#[trigger] self.registry.peers@[j]).id@ == old(self).registry.peers@[j].id@
                && self.registry.peers@[j].tags.always_allow == old(self).registry.peers@[j].tags.always_allow
                && self.registry.peers@[j].tags.ban_until == old(self).registry.peers@[j].tags.ban_until,
                forall|j: int| old(self).registry.peers@.len() <= j < self.registry.peers@.len() ==> !(#[trigger] self.registry.peers@[j]).tags.always_allow
                && self.registry.peers@[j].tags.ban_until.is_none(),
                forall|k: int| 0 <= k < x ==> has_peer(self.registry.peers@, (#[trigger] pids@[k])@),
                forall|j: int| 0 <= j < self.registry.peers@.len() ==> ((#[trigger] self.registry.peers@[j]).tags.consensus
                    <==> exists|k: int| 0 <= k < x && (#[trigger] pids@[k])@ == self.registry.peers@[j].id@),
            decreases pids@.len() - x,
        {
            let ghost before = self.registry.peers@;
            let i = self.peer_index_or_insert(&pids[x]);
            let ghost mid = self.registry.peers@;
            self.registry.peers[i].tags.insert(crate::tags::Tag::Consensus);
            proof {
                lemma_peer_touched(mid, self.registry.peers@, self.registry.sessions@, i as int);
                let after = self.registry.peers@;
                assert forall|j: int| 0 <= j < after.len() implies ((#[trigger] after[j]).tags.always_allow == (if j
                    < before.len() {
                    before[j].tags.always_allow
                } else {
                    false
                })) && after[j].tags.ban_until == (if j < before.len() {
                    before[j].tags.ban_until
                } else {
                    None
                }) && (j < before.len() ==> after[j].id@ == before[j].id@) by {
                    if j != i {
                        assert(after[j] == mid[j]);
                        if j < before.len() {
                            assert(mid[j] == before[j]);
                        }
                    } else if j < before.len() {
                        assert(mid[j] == before[j]);
                    }
                }
                assert forall|k: int| 0 <= k < x + 1 implies has_peer(after, (#[trigger] pids@[k])@) by {
                    if k < x {
                        let j = choose|j: int| 0 <= j < before.len() && (#[trigger] before[j]).id@ == pids@[k]@;
                        assert(mid[j] == before[j]);
                        assert(after[j].id@ == pids@[k]@);
                    } else {
                        assert(after[i as int].id@ == pids@[k]@);
                    }
                }
                assert forall|j: int| 0 <= j < after.len() implies ((#[trigger] after[j]).tags.consensus
                    <==> exists|k: int| 0 <= k < x + 1 && (#[trigger] pids@[k])@ == after[j].id@) by {
                    if j == i {
                        assert(pids@[x as int]@ == after[j].id@);
                    } else {
                        assert(after[j] == mid[j]);
                        if j < before.len() {
                            assert(mid[j] == before[j]);
                        } else {
                            assert(!mid[j].tags.consensus);
                            assert(j == i);
                        }
                        if exists|k: int| 0 <= k < x + 1 && (#[trigger] pids@[k])@ == after[j].id@ {
                            let k = choose|k: int| 0 <= k < x + 1 && (#[trigger] pids@[k])@ == after[j].id@;
                            if k == x {
                                assert(after[j].id@ == after[i as int].id@);
                            }
                        }
                    }
                }
            }
            x = x + 1;
        }
    }

    /// Addresses to share with others: all our listen addresses, then the
    /// dialable addresses of connected peers other than the one of session
    /// `excluded`, until `max` addresses are gathered.
    pub fn random_addrs(&self, max: usize, excluded: u64) -> (r: Vec<Multiaddr>)
        requires
            self.wf(),
        ensures
            r@.len() <= crate::registry::listen_view(self.registry.listen@).len() + max,
            r@.len() >= crate::registry::listen_view(self.registry.listen@).len(),
            r@.subrange(0, self.registry.listen@.len() as int).map_values(|a: Multiaddr| a@)
                == crate::registry::listen_view(self.registry.listen@),
            // what follows are dialable addresses of peers connected through other sessions
            forall|x: int| self.registry.listen@.len() <= x < r@.len() ==> #[trigger] shareable(*self, excluded, r@[x]@),
    {
        let mut r = self.registry.listen();
        let base = r.len();
        let ghost start = r@;
        proof {
            assert(crate::registry::listen_view(r@).len() == r@.len());
            assert(crate::registry::listen_view(self.registry.listen@).len() == self.registry.listen@.len());
        }
        let cap = base.saturating_add(max);
        let mut j: usize = 0;
        while j < self.registry.sessions.len() && r.len() < cap
            invariant
                self.wf(),
                base == self.registry.listen@.len(),
                base == start.len(),
                start.map_values(|a: Multiaddr| a@) == crate::registry::listen_view(self.registry.listen@),
                r@.len() >= base,
                r@.len() <= base + max,
                cap <= base + max,
                r@.subrange(0, base as int) == start,
                j <= self.registry.sessions@.len(),
                forall|x: int| base <= x < r@.len() ==> #[trigger] shareable(*self, excluded, r@[x]@),
            decreases self.registry.sessions@.len() - j,
        {
            if self.registry.sessions[j].sid != excluded {
                match self.registry.find_peer(&self.registry.sessions[j].peer) {
                    Some(i) => {
                        let addrs = self.registry.peers[i].multiaddrs.connectable();
                        let mut y: usize = 0;
                        while y < addrs.len() && r.len() < cap
                            invariant
                                r@.len() >= base,
                                r@.len() <= base + max,
                                cap <= base + max,
                                r@.subrange(0, base as int) == start,
                                y <= addrs@.len(),
                                forall|x: int| base <= x < r@.len() ==> #[trigger] shareable(*self, excluded, r@[x]@),
                                j < self.registry.sessions@.len(),
                                i < self.registry.peers@.len(),
                                self.registry.sessions@[j as int].sid != excluded,
                                self.registry.peers@[i as int].id@ == self.registry.sessions@[j as int].peer@,
                                addrs@.map_values(|a: Multiaddr| a@) == crate::addr::connectable_addrs(
                                    self.registry.peers@[i as int].multiaddrs@,
                                ),
                            decreases addrs@.len() - y,
                        {
                            let ghost r0 = r@;
                            r.push(addrs[y].copy());
                            assert(r@.subrange(0, base as int) =~= r0.subrange(0, base as int));
                            proof {
                                let a = addrs@[y as int]@;
                                assert(addrs@.map_values(|m: Multiaddr| m@)[y as int] == a);
                                assert(crate::addr::connectable_addrs(self.registry.peers@[i as int].multiaddrs@).contains(a));
                                assert(shareable(*self, excluded, a));
                                assert forall|x: int| base <= x < r@.len() implies #[trigger] shareable(*self, excluded, r@[x]@) by {
                                    if x < r0.len() {
                                        assert(r@[x] == r0[x]);
                                    }
                                }
                            }
                            y = y + 1;
                        }
                    },
                    None => {},
                }
            }
            j = j + 1;
        }
        proof {
            assert(crate::registry::listen_view(self.registry.listen@).len() == base);
        }
        r
    }
}

} // verus!
