use peer_manager::addr::{Multiaddr, MAX_RETRY_COUNT};
use peer_manager::manager::{
    Admission, ConfigError, ConnectionErrorKind, ConnectionEvent, MisbehaviorKind, PeerManager,
    PeerManagerConfig, PeerManagerEvent, RejectReason, SessionContext, SessionErrorKind,
    TrustFeedback, SAME_IP_LIMIT_BAN,
};
use peer_manager::peer::{Connectedness, Peer, PeerId};
use peer_manager::registry::SessionType;
use peer_manager::tags::{Tag, TagKind};
use peer_manager::trust::{TrustMetric, TrustMetricConfig, GOOD_TRUST_SCORE};

const LOCALHOST: u32 = 0x7f00_0001;
const NOW: u64 = 1_700_000_000;

fn pid(n: u16) -> PeerId {
    PeerId::new(vec![0x12, 0x20, (n >> 8) as u8, n as u8])
}

/// Each port stands for a host of its own.
fn make_multiaddr(port: u16, id: Option<PeerId>) -> Multiaddr {
    Multiaddr::new(0x0a00_0000 + port as u32, port, id)
}

fn make_peer(port: u16) -> Peer {
    let id = pid(port);
    let mut peer = Peer::from_pubkey(vec![2, port as u8], id.clone());
    peer.multiaddrs.insert(&make_multiaddr(port, Some(id)));
    peer
}

fn make_config(max_connections: usize) -> PeerManagerConfig {
    let inbound_conn_limit = max_connections / 2;
    PeerManagerConfig {
        our_id: PeerId::new(vec![0xff, 0xff]),
        bootstraps: vec![],
        allowlist: vec![],
        allowlist_only: false,
        peer_trust_config: TrustMetricConfig::default_config(),
        peer_fatal_ban: 50,
        peer_soft_ban: 10,
        max_connections,
        same_ip_conn_limit: max_connections,
        inbound_conn_limit,
        outbound_conn_limit: max_connections - inbound_conn_limit,
        routine_interval: 10,
    }
}

fn make_manager(max_connections: usize) -> PeerManager {
    PeerManager::new(make_config(max_connections)).expect("manager")
}

fn index_of(mgr: &PeerManager, id: &PeerId) -> usize {
    mgr.registry.find_peer(id).expect("known peer")
}

fn peer<'a>(mgr: &'a PeerManager, id: &PeerId) -> &'a Peer {
    mgr.registry.peer(id).expect("known peer")
}

fn new_session(
    mgr: &mut PeerManager,
    id: &PeerId,
    sid: u64,
    addr: Multiaddr,
    ty: SessionType,
    out: &mut Vec<ConnectionEvent>,
) -> Admission {
    let ctx = SessionContext { sid, addr, ty };
    mgr.new_session(id, vec![2], id, ctx, NOW, out)
}

fn make_sessions(mgr: &mut PeerManager, num: u16, init_port: u16, ty: SessionType) -> Vec<PeerId> {
    let outbound_limit = mgr.config.outbound_conn_limit;
    let mut out = Vec::new();
    let mut ids = Vec::new();
    for n in 0..num {
        let id = pid(init_port + n);
        let addr = make_multiaddr(init_port + n, Some(id.clone()));
        let ty = if ty == SessionType::Outbound && mgr.registry.outbound_count() == outbound_limit {
            SessionType::Inbound
        } else {
            ty
        };
        new_session(mgr, &id, (n + 1) as u64, addr, ty, &mut out);
        ids.push(id);
    }
    assert_eq!(mgr.registry.connected(), num as usize, "make some sessions");
    ids
}

fn disconnects(out: &[ConnectionEvent]) -> Vec<u64> {
    out.iter()
        .filter_map(|e| match e {
            ConnectionEvent::Disconnect(sid) => Some(*sid),
            _ => None,
        })
        .collect()
}

fn set_score(mgr: &mut PeerManager, id: &PeerId, intervals: usize, good: u64, bad: u64) {
    let i = index_of(mgr, id);
    let metric = mgr.registry.peers[i].trust_metric.as_mut().expect("metric");
    for _ in 0..intervals {
        metric.good_events(good);
        metric.bad_events(bad);
        metric.enter_new_interval();
    }
}

#[test]
fn should_accept_new_peer_inbound_connection_on_new_session() {
    let mut mgr = make_manager(20);
    let a = pid(1);
    let addr = make_multiaddr(6000, Some(a.clone()));
    let mut out = Vec::new();
    let r = new_session(&mut mgr, &a, 1, addr.clone(), SessionType::Inbound, &mut out);
    assert_eq!(r, Admission::Accept);
    assert_eq!(mgr.registry.connected(), 1, "should have one without bootstrap");
    let saved = peer(&mgr, &a);
    assert_eq!(saved.session_id(), 1);
    assert!(saved.has_pubkey(), "should have public key");
    assert_eq!(saved.connectedness(), Connectedness::Connected);
    assert_eq!(saved.retry.count(), 0, "should reset retry");
    assert!(!saved.multiaddrs.contains(&addr), "should not save inbound multiaddr");
    let session = mgr.registry.session(1).expect("should save session");
    assert_eq!(session.peer, a);
    assert!(!session.is_blocked());
    assert!(out.is_empty());
}

#[test]
fn should_add_new_outbound_multiaddr_to_peer_on_new_session() {
    let mut mgr = make_manager(20);
    let a = pid(2);
    let mut out = Vec::new();
    let r = new_session(&mut mgr, &a, 1, make_multiaddr(9527, None), SessionType::Outbound, &mut out);
    assert_eq!(r, Admission::Accept);
    let with_id = make_multiaddr(9527, Some(a.clone()));
    assert_eq!(peer(&mgr, &a).multiaddrs.failure(&with_id), Some(0));
    assert!(peer(&mgr, &a).trust_metric.as_ref().expect("metric").is_started());
}

#[test]
fn should_reject_new_connection_for_same_peer_on_new_session() {
    let mut mgr = make_manager(20);
    let ids = make_sessions(&mut mgr, 1, 5000, SessionType::Outbound);
    let mut out = Vec::new();
    let r = new_session(&mut mgr, &ids[0], 99, make_multiaddr(5000, None), SessionType::Outbound, &mut out);
    assert_eq!(r, Admission::Reject(RejectReason::Duplicate));
    assert_eq!(mgr.registry.connected(), 1, "should not increase conn count");
    assert_eq!(peer(&mgr, &ids[0]).session_id(), 1, "should not change peer session id");
    assert_eq!(disconnects(&out), vec![99]);
}

#[test]
fn should_reject_new_connections_when_we_reach_max_connections_on_new_session() {
    let mut mgr = make_manager(10);
    make_sessions(&mut mgr, 10, 7000, SessionType::Outbound);
    let mut out = Vec::new();
    let id = pid(2077);
    let r = new_session(&mut mgr, &id, 99, make_multiaddr(2077, Some(id.clone())), SessionType::Outbound, &mut out);
    assert_eq!(r, Admission::Reject(RejectReason::MaxConnections));
    assert_eq!(mgr.registry.connected(), 10, "should not increase conn count");
    assert_eq!(disconnects(&out), vec![99]);
}

#[test]
fn should_reject_banned_peer_on_new_session() {
    let mut mgr = make_manager(10);
    let p = make_peer(2077);
    let id = p.owned_id();
    mgr.registry.add_peer(p);
    let i = index_of(&mgr, &id);
    mgr.registry.peers[i].tags.insert_ban(NOW, 10);
    let mut out = Vec::new();
    let r = new_session(&mut mgr, &id, 99, make_multiaddr(2077, None), SessionType::Outbound, &mut out);
    assert_eq!(r, Admission::Reject(RejectReason::Banned));
    assert_eq!(mgr.registry.connected(), 0);
    assert_eq!(disconnects(&out), vec![99]);
}

#[test]
fn outbound_retries_exhausted_give_up_the_peer() {
    let mut mgr = make_manager(20);
    let b = make_peer(2077);
    let id = b.owned_id();
    mgr.registry.add_peer(b);
    let mut out = Vec::new();
    mgr.connect_peers_now(&vec![id.clone()], NOW, &mut out);
    assert_eq!(mgr.connecting.len(), 1);
    let addr = make_multiaddr(2077, Some(id.clone()));
    for _ in 0..6 {
        mgr.connect_failed(&addr, ConnectionErrorKind::Io);
    }
    let b = peer(&mgr, &id);
    assert_eq!(b.connectedness(), Connectedness::Unconnectable);
    assert_eq!(b.retry.count(), MAX_RETRY_COUNT + 1);
    assert_eq!(mgr.connecting.len(), 0);
}

#[test]
fn should_give_up_peer_if_run_out_retry_on_connect_failed() {
    let mut mgr = make_manager(20);
    let p = make_peer(2077);
    let id = p.owned_id();
    mgr.registry.add_peer(p);
    let mut out = Vec::new();
    mgr.connect_peers_now(&vec![id.clone()], NOW, &mut out);
    let i = index_of(&mgr, &id);
    mgr.registry.peers[i].retry.set(MAX_RETRY_COUNT);
    mgr.connect_failed(&make_multiaddr(2077, Some(id.clone())), ConnectionErrorKind::Io);
    assert_eq!(mgr.connecting.len(), 0);
    assert_eq!(peer(&mgr, &id).retry.count(), MAX_RETRY_COUNT + 1);
    assert_eq!(peer(&mgr, &id).connectedness(), Connectedness::Unconnectable);
}

#[test]
fn should_return_early_if_we_already_give_up_peer_on_connect_failed() {
    let mut mgr = make_manager(20);
    let p = make_peer(2077);
    let id = p.owned_id();
    mgr.registry.add_peer(p);
    let mut out = Vec::new();
    mgr.connect_peers_now(&vec![id.clone()], NOW, &mut out);
    mgr.connect_failed(&make_multiaddr(2077, Some(id.clone())), ConnectionErrorKind::ProtocolHandle);
    assert_eq!(mgr.connecting.len(), 0);
    assert_eq!(peer(&mgr, &id).connectedness(), Connectedness::Unconnectable);
    assert_eq!(peer(&mgr, &id).retry.count(), 0, "should not touch peer retry");
}

#[test]
fn should_wait_for_other_connecting_multiaddrs_if_we_dont_give_up_peer_on_connect_failed() {
    let mut mgr = make_manager(20);
    let mut p = make_peer(2077);
    let id = p.owned_id();
    p.multiaddrs.insert(&make_multiaddr(2020, Some(id.clone())));
    assert_eq!(p.multiaddrs.connectable_len(), 2);
    mgr.registry.add_peer(p);
    let mut out = Vec::new();
    mgr.connect_peers_now(&vec![id.clone()], NOW, &mut out);
    assert_eq!(mgr.connecting[0].multiaddrs, 2);
    mgr.connect_failed(&make_multiaddr(2077, Some(id.clone())), ConnectionErrorKind::Io);
    assert_eq!(mgr.connecting.len(), 1);
    assert_eq!(mgr.connecting[0].multiaddrs, 1);
    let failed = make_multiaddr(2077, Some(id.clone()));
    assert_eq!(peer(&mgr, &id).multiaddrs.failure(&failed), Some(1));
}

#[test]
fn should_give_up_peer_multiaddr_if_peer_id_not_match_on_connect_failed() {
    let mut mgr = make_manager(20);
    let p = make_peer(2077);
    let id = p.owned_id();
    mgr.registry.add_peer(p);
    mgr.connect_failed(&make_multiaddr(2077, Some(id.clone())), ConnectionErrorKind::PeerIdNotMatch);
    assert_eq!(peer(&mgr, &id).multiaddrs.connectable_len(), 0);
}

#[test]
fn same_ip_cap_rejects_and_bans() {
    let mut config = make_config(10);
    config.same_ip_conn_limit = 1;
    config.inbound_conn_limit = 5;
    config.outbound_conn_limit = 5;
    let mut mgr = PeerManager::new(config).expect("manager");
    let c = pid(5000);
    let mut out = Vec::new();
    let r = new_session(&mut mgr, &c, 1, Multiaddr::new(LOCALHOST, 5000, None), SessionType::Outbound, &mut out);
    assert_eq!(r, Admission::Accept);
    let d = make_peer(9527);
    let id = d.owned_id();
    mgr.registry.add_peer(d);
    let r = new_session(&mut mgr, &id, 99, Multiaddr::new(LOCALHOST, 9527, None), SessionType::Outbound, &mut out);
    assert_eq!(r, Admission::Reject(RejectReason::SameIp));
    assert_eq!(disconnects(&out), vec![99]);
    assert_eq!(peer(&mgr, &id).tags.get_banned_until(), Some(NOW + SAME_IP_LIMIT_BAN));
    assert_eq!(mgr.registry.connected(), 1);
}

#[test]
fn replacement_on_high_trust() {
    let mut mgr = make_manager(10);
    let ids = make_sessions(&mut mgr, 10, 5000, SessionType::Outbound);
    let victim = ids[0].clone();
    set_score(&mut mgr, &victim, 30, 1, 1);
    let vi = index_of(&mgr, &victim);
    assert!(mgr.registry.peers[vi].trust_score().expect("score") < GOOD_TRUST_SCORE);
    mgr.registry.peers[vi].set_alive(60 * 20 + 20);
    let victim_sid = peer(&mgr, &victim).session_id();

    let newcomer = make_peer(2077);
    let nid = newcomer.owned_id();
    mgr.registry.add_peer(newcomer);
    let ni = index_of(&mgr, &nid);
    let mut metric = TrustMetric::new(TrustMetricConfig::default_config());
    for _ in 0..10 {
        metric.good_events(1);
        metric.enter_new_interval();
    }
    assert!(metric.trust_score().expect("score") >= 90);
    mgr.registry.peers[ni].set_trust_metric(metric);

    let mut out = Vec::new();
    let r = new_session(&mut mgr, &nid, 99, make_multiaddr(2077, None), SessionType::Outbound, &mut out);
    assert_eq!(r, Admission::Replace(victim_sid));
    assert_eq!(disconnects(&out), vec![victim_sid]);
    assert_eq!(peer(&mgr, &nid).connectedness(), Connectedness::Connected);
    assert_eq!(peer(&mgr, &victim).connectedness(), Connectedness::CanConnect);
    assert_eq!(mgr.registry.connected(), 10);
}

#[test]
fn should_not_replace_any_peer_if_incoming_hasnt_trust_score_due_to_max_connections_on_new_session() {
    let mut mgr = make_manager(10);
    let ids = make_sessions(&mut mgr, 10, 5000, SessionType::Outbound);
    set_score(&mut mgr, &ids[0], 30, 1, 1);
    let vi = index_of(&mgr, &ids[0]);
    mgr.registry.peers[vi].set_alive(60 * 20 + 20);
    let newcomer = make_peer(2077);
    let nid = newcomer.owned_id();
    mgr.registry.add_peer(newcomer);
    let mut out = Vec::new();
    let r = new_session(&mut mgr, &nid, 99, make_multiaddr(2077, None), SessionType::Outbound, &mut out);
    assert_eq!(r, Admission::Reject(RejectReason::MaxConnections));
    assert_eq!(disconnects(&out), vec![99]);
}

#[test]
fn should_not_replace_peer_not_old_enough_due_to_max_connections_on_new_session() {
    let mut mgr = make_manager(10);
    let ids = make_sessions(&mut mgr, 10, 5000, SessionType::Outbound);
    set_score(&mut mgr, &ids[0], 30, 1, 1);
    let newcomer = make_peer(2077);
    let nid = newcomer.owned_id();
    mgr.registry.add_peer(newcomer);
    let ni = index_of(&mgr, &nid);
    let mut metric = TrustMetric::new(TrustMetricConfig::default_config());
    for _ in 0..10 {
        metric.good_events(1);
        metric.enter_new_interval();
    }
    mgr.registry.peers[ni].set_trust_metric(metric);
    let mut out = Vec::new();
    let r = new_session(&mut mgr, &nid, 99, make_multiaddr(2077, None), SessionType::Outbound, &mut out);
    assert_eq!(r, Admission::Reject(RejectReason::MaxConnections));
    assert_eq!(disconnects(&out), vec![99]);
}

#[test]
fn should_accept_always_allow_peer_even_if_we_reach_max_connections_on_new_session() {
    let mut mgr = make_manager(10);
    make_sessions(&mut mgr, 10, 5000, SessionType::Outbound);
    let other = make_peer(2019);
    let oid = other.owned_id();
    let mut always = make_peer(2077);
    always.tags.insert(Tag::AlwaysAllow);
    let aid = always.owned_id();
    mgr.registry.add_peer(always);
    let mut out = Vec::new();
    let r = new_session(&mut mgr, &oid, 233, make_multiaddr(2019, None), SessionType::Inbound, &mut out);
    assert_eq!(r, Admission::Reject(RejectReason::InboundLimit));
    assert_eq!(mgr.registry.connected(), 10);
    let r = new_session(&mut mgr, &aid, 666, make_multiaddr(2077, None), SessionType::Inbound, &mut out);
    assert_eq!(r, Admission::Accept);
    assert_eq!(mgr.registry.connected(), 11);
    assert_eq!(mgr.registry.session(666).expect("session").peer, aid);
}

#[test]
fn should_only_accept_incoming_from_peer_in_allowlist_if_enable_allowlist_only() {
    let mut config = make_config(10);
    config.allowlist = vec![pid(1)];
    config.allowlist_only = true;
    let mut mgr = PeerManager::new(config).expect("manager");
    assert!(peer(&mgr, &pid(1)).tags.contains(TagKind::AlwaysAllow));
    let mut out = Vec::new();
    let r = new_session(&mut mgr, &pid(2), 1, make_multiaddr(1, None), SessionType::Inbound, &mut out);
    assert_eq!(r, Admission::Reject(RejectReason::NotAllowed));
    let r = new_session(&mut mgr, &pid(1), 2, make_multiaddr(2, None), SessionType::Inbound, &mut out);
    assert_eq!(r, Admission::Accept);
    assert_eq!(mgr.registry.connected(), 1);
}

#[test]
fn should_reject_inbound_conn_when_reach_inbound_conn_limit() {
    let mut mgr = make_manager(10);
    make_sessions(&mut mgr, 5, 5000, SessionType::Inbound);
    let mut out = Vec::new();
    let r = new_session(&mut mgr, &pid(1), 99, make_multiaddr(1, None), SessionType::Inbound, &mut out);
    assert_eq!(r, Admission::Reject(RejectReason::InboundLimit));
    assert_eq!(mgr.registry.inbound_count(), 5);
    assert_eq!(disconnects(&out), vec![99]);
}

#[test]
fn should_remove_connecting_even_if_session_is_reject_due_to_reach_max_connections_on_new_session() {
    let mut mgr = make_manager(5);
    make_sessions(&mut mgr, 5, 7000, SessionType::Outbound);
    let p = make_peer(2020);
    let id = p.owned_id();
    mgr.registry.add_peer(p);
    let mut out = Vec::new();
    mgr.connect_peers_now(&vec![id.clone()], NOW, &mut out);
    assert_eq!(mgr.connecting.len(), 1);
    let r = new_session(&mut mgr, &id, 99, make_multiaddr(2020, None), SessionType::Outbound, &mut out);
    assert_eq!(r, Admission::Reject(RejectReason::MaxConnections));
    assert_eq!(mgr.connecting.len(), 0);
}

#[test]
fn should_remove_session_on_session_closed() {
    let mut mgr = make_manager(20);
    let ids = make_sessions(&mut mgr, 1, 5000, SessionType::Outbound);
    let i = index_of(&mgr, &ids[0]);
    mgr.registry.peers[i].set_connected_at(NOW - 61);
    mgr.session_closed(&ids[0], 1, NOW, 7);
    assert_eq!(mgr.registry.connected(), 0);
    let p = peer(&mgr, &ids[0]);
    assert_eq!(p.connectedness(), Connectedness::CanConnect);
    assert_eq!(p.retry.count(), 0, "should keep retry to 0");
    assert_eq!(p.retry.next_at, NOW + 7);
    assert!(!p.trust_metric.as_ref().expect("metric").is_started());
}

#[test]
fn should_increase_retry_for_short_alive_session_on_session_closed() {
    let mut mgr = make_manager(20);
    let ids = make_sessions(&mut mgr, 1, 5000, SessionType::Outbound);
    mgr.session_closed(&ids[0], 1, NOW + 5, 7);
    let p = peer(&mgr, &ids[0]);
    assert_eq!(p.connectedness(), Connectedness::CanConnect);
    assert!(p.retry.eta() > 60, "back-off covers the repeated connection timeout");
}

#[test]
fn should_ensure_disconnect_session_on_session_failed() {
    let mut mgr = make_manager(20);
    let ids = make_sessions(&mut mgr, 1, 5000, SessionType::Outbound);
    let mut out = Vec::new();
    mgr.session_failed(1, SessionErrorKind::Io, NOW, &mut out);
    assert_eq!(mgr.registry.connected(), 0);
    let p = peer(&mgr, &ids[0]);
    assert_eq!(p.connectedness(), Connectedness::CanConnect);
    assert_eq!(p.retry.count(), 1);
    assert_eq!(p.trust_metric.as_ref().expect("metric").bad_events_count(), 1);
    assert_eq!(disconnects(&out), vec![1]);
}

#[test]
fn should_give_up_peer_for_protocol_error_on_session_failed() {
    let mut mgr = make_manager(20);
    let ids = make_sessions(&mut mgr, 1, 5000, SessionType::Outbound);
    let mut out = Vec::new();
    mgr.session_failed(1, SessionErrorKind::Protocol, NOW, &mut out);
    assert_eq!(mgr.registry.connected(), 0);
    assert_eq!(peer(&mgr, &ids[0]).connectedness(), Connectedness::Unconnectable);
}

#[test]
fn should_give_up_peer_for_ping_unexpect_on_misbehave() {
    let mut mgr = make_manager(20);
    let ids = make_sessions(&mut mgr, 1, 5000, SessionType::Outbound);
    let mut out = Vec::new();
    mgr.misbehave(&ids[0], MisbehaviorKind::PingUnexpect, NOW, &mut out);
    assert_eq!(mgr.registry.connected(), 0);
    assert_eq!(peer(&mgr, &ids[0]).connectedness(), Connectedness::Unconnectable);
    assert_eq!(disconnects(&out), vec![1]);
}

#[test]
fn should_increase_retry_for_ping_timeout_on_misbehave() {
    let mut mgr = make_manager(20);
    let ids = make_sessions(&mut mgr, 1, 5000, SessionType::Outbound);
    let mut out = Vec::new();
    mgr.misbehave(&ids[0], MisbehaviorKind::PingTimeout, NOW, &mut out);
    assert_eq!(mgr.registry.connected(), 0);
    assert_eq!(peer(&mgr, &ids[0]).retry.count(), 1);
}

#[test]
fn should_mark_session_blocked_on_session_blocked() {
    let mut mgr = make_manager(20);
    let ids = make_sessions(&mut mgr, 1, 5000, SessionType::Outbound);
    mgr.session_blocked(1, NOW);
    assert!(mgr.registry.session(1).expect("session").is_blocked());
    assert_eq!(peer(&mgr, &ids[0]).trust_metric.as_ref().expect("metric").bad_events_count(), 1);
}

#[test]
fn fatal_feedback_bans_and_disconnects() {
    let mut mgr = make_manager(20);
    let ids = make_sessions(&mut mgr, 1, 5000, SessionType::Outbound);
    let mut out = Vec::new();
    mgr.trust_feedback(&ids[0], &TrustFeedback::Fatal("x".to_string()), NOW, &mut out);
    assert_eq!(disconnects(&out), vec![1]);
    let p = peer(&mgr, &ids[0]);
    assert_eq!(p.tags.get_banned_until(), Some(NOW + 50));
    assert!(!p.trust_metric.as_ref().expect("metric").is_started());
    assert_eq!(mgr.registry.connected(), 0);
}

#[test]
fn always_allow_peer_is_immune_to_fatal_feedback() {
    let mut mgr = make_manager(20);
    let ids = make_sessions(&mut mgr, 1, 5000, SessionType::Outbound);
    mgr.tag(&ids[0], Tag::AlwaysAllow);
    let mut out = Vec::new();
    mgr.trust_feedback(&ids[0], &TrustFeedback::Fatal("x".to_string()), NOW, &mut out);
    assert!(out.is_empty());
    let p = peer(&mgr, &ids[0]);
    assert_eq!(p.tags.get_banned_until(), None);
    assert!(p.trust_metric.as_ref().expect("metric").is_started());
    assert_eq!(mgr.registry.connected(), 1);
}

#[test]
fn should_disconnect_and_soft_ban_peer_if_below_fourty_score_on_worse_feedback_on_trust_metric() {
    let mut mgr = make_manager(20);
    let ids = make_sessions(&mut mgr, 1, 5000, SessionType::Outbound);
    set_score(&mut mgr, &ids[0], 4, 0, 1);
    let mut out = Vec::new();
    mgr.trust_feedback(&ids[0], &TrustFeedback::Worse("worse".to_string()), NOW, &mut out);
    assert_eq!(disconnects(&out), vec![1]);
    assert_eq!(peer(&mgr, &ids[0]).tags.get_banned_until(), Some(NOW + 10));
}

#[test]
fn should_not_knock_out_peer_just_set_up_trust_metric_on_worse_feedback_on_trust_metric() {
    let mut mgr = make_manager(20);
    let ids = make_sessions(&mut mgr, 1, 5000, SessionType::Outbound);
    let mut out = Vec::new();
    mgr.trust_feedback(&ids[0], &TrustFeedback::Worse("worse".to_string()), NOW, &mut out);
    assert!(out.is_empty());
    let p = peer(&mgr, &ids[0]);
    assert_eq!(p.trust_metric.as_ref().expect("metric").bad_events_count(), 10);
    assert_eq!(p.tags.get_banned_until(), None);
}

#[test]
fn should_do_nothing_for_neutral_feedback_on_trust_metric() {
    let mut mgr = make_manager(20);
    let ids = make_sessions(&mut mgr, 1, 5000, SessionType::Outbound);
    let mut out = Vec::new();
    mgr.trust_feedback(&ids[0], &TrustFeedback::Neutral, NOW, &mut out);
    mgr.trust_feedback(&ids[0], &TrustFeedback::Good, NOW, &mut out);
    mgr.trust_feedback(&ids[0], &TrustFeedback::Bad("bad".to_string()), NOW, &mut out);
    let m = peer(&mgr, &ids[0]).trust_metric.as_ref().expect("metric");
    assert_eq!(m.good_events_count(), 1);
    assert_eq!(m.bad_events_count(), 1);
}

#[test]
fn discovering_twice_keeps_state_and_failures() {
    let mut mgr = make_manager(20);
    let addrs: Vec<Multiaddr> = (0..3).map(|n| make_multiaddr(7000 + n, Some(pid(7000 + n)))).collect();
    mgr.discover_multi_addrs(&addrs);
    assert_eq!(mgr.registry.peers.len(), 3);
    let first = addrs[0].clone();
    let i = index_of(&mgr, &pid(7000));
    mgr.registry.peers[i].multiaddrs.inc_failure(&first);
    mgr.discover_multi_addrs(&addrs);
    assert_eq!(mgr.registry.peers.len(), 3);
    for n in 0..3 {
        assert_eq!(peer(&mgr, &pid(7000 + n)).multiaddrs.len(), 1);
    }
    assert_eq!(peer(&mgr, &pid(7000)).multiaddrs.failure(&first), Some(1));
}

#[test]
fn should_skip_our_listen_multiaddrs_on_discover_multi_addrs() {
    let mut mgr = make_manager(20);
    let ours = mgr.config.our_id.clone();
    mgr.add_new_listen_addr(&make_multiaddr(2020, None));
    mgr.discover_multi_addrs(&vec![make_multiaddr(2020, Some(ours.clone())), make_multiaddr(1, None)]);
    assert!(!mgr.registry.contains(&ours));
    assert_eq!(mgr.registry.peers.len(), 0);
}

#[test]
fn listen_add_then_remove_restores_listen_set() {
    let mut mgr = make_manager(20);
    mgr.add_new_listen_addr(&make_multiaddr(1000, None));
    let before = mgr.registry.listen();
    mgr.add_new_listen_addr(&make_multiaddr(2000, None));
    assert_eq!(mgr.registry.listen().len(), 2);
    assert_eq!(mgr.registry.listen()[1], make_multiaddr(2000, Some(mgr.config.our_id.clone())));
    mgr.remove_listen_addr(&make_multiaddr(2000, None));
    assert_eq!(mgr.registry.listen(), before);
}

#[test]
fn should_push_id_to_multiaddrs_if_not_included_on_identified_addrs() {
    let mut mgr = make_manager(20);
    let p = make_peer(2077);
    let id = p.owned_id();
    mgr.registry.add_peer(p);
    mgr.identified_addrs(&id, &vec![make_multiaddr(9000, None), make_multiaddr(9001, Some(id.clone()))]);
    let p = peer(&mgr, &id);
    assert_eq!(p.multiaddrs.len(), 3);
    assert!(p.multiaddrs.all().contains(&make_multiaddr(9000, Some(id.clone()))));
    assert!(!p.multiaddrs.all().contains(&make_multiaddr(9000, None)));
}

#[test]
fn should_reset_peer_failure_for_outbound_multiaddr_on_repeated_connection() {
    let mut mgr = make_manager(20);
    let ids = make_sessions(&mut mgr, 1, 5000, SessionType::Outbound);
    let addr = make_multiaddr(5000, Some(ids[0].clone()));
    let i = index_of(&mgr, &ids[0]);
    mgr.registry.peers[i].multiaddrs.inc_failure(&addr);
    mgr.repeated_connection(SessionType::Outbound, 1, &addr);
    assert_eq!(peer(&mgr, &ids[0]).multiaddrs.failure(&addr), Some(0));
    mgr.repeated_connection(SessionType::Inbound, 1, &make_multiaddr(5000, None));
    assert_eq!(peer(&mgr, &ids[0]).multiaddrs.failure(&addr), None);
}

#[test]
fn should_try_all_peer_multiaddrs_on_connect_peers_now() {
    let mut mgr = make_manager(20);
    let mut ids = Vec::new();
    for port in 0..10u16 {
        let mut p = make_peer(port + 7000);
        p.multiaddrs.insert(&make_multiaddr(port + 8000, None));
        ids.push(p.owned_id());
        mgr.registry.add_peer(p);
    }
    let mut out = Vec::new();
    mgr.connect_peers_now(&ids, NOW, &mut out);
    assert_eq!(mgr.connecting.len(), 10);
    assert_eq!(out.len(), 1);
    match &out[0] {
        ConnectionEvent::Connect { addrs, .. } => assert_eq!(addrs.len(), 20),
        _ => panic!("should be connect event"),
    }
}

#[test]
fn should_skip_peers_not_in_can_connect_or_not_connected_connectedness_on_connect_peers_now() {
    let mut mgr = make_manager(20);
    let mut unconnectable = make_peer(2059);
    unconnectable.set_connectedness(Connectedness::Unconnectable);
    let mut connecting = make_peer(2020);
    connecting.set_connectedness(Connectedness::Connecting);
    let ids = vec![unconnectable.owned_id(), connecting.owned_id()];
    mgr.registry.add_peer(unconnectable);
    mgr.registry.add_peer(connecting);
    let mut out = Vec::new();
    mgr.connect_peers_now(&ids, NOW, &mut out);
    assert!(out.is_empty());
}

#[test]
fn routine_dials_good_peers_first() {
    let mut mgr = make_manager(4);
    make_sessions(&mut mgr, 1, 5000, SessionType::Outbound);
    let normal = make_peer(2020);
    mgr.registry.add_peer(normal);
    let mut good = make_peer(2077);
    let mut metric = TrustMetric::new(TrustMetricConfig::default_config());
    for _ in 0..10 {
        metric.good_events(1);
        metric.enter_new_interval();
    }
    good.set_trust_metric(metric);
    let gid = good.owned_id();
    mgr.registry.add_peer(good);
    let mut out = Vec::new();
    // outbound limit 2 with one outbound session: a deficit of one, plus the margin
    let dialled = mgr.routine(NOW, 12345, &mut out);
    assert_eq!(dialled, 2);
    assert_eq!(mgr.connecting.len(), 2);
    match &out[0] {
        ConnectionEvent::Connect { addrs, target } => {
            assert_eq!(addrs, &vec![make_multiaddr(2077, Some(gid.clone()))]);
            assert_eq!(target, &Some(gid.clone()));
        },
        _ => panic!("should be connect event"),
    }
    // nothing more is dialled while the dials are outstanding
    out.clear();
    assert_eq!(mgr.routine(NOW + 1, 7, &mut out), 0);
}

#[test]
fn should_remove_connecting_attempt_when_reach_timeout() {
    let mut mgr = make_manager(20);
    let p = make_peer(2077);
    let id = p.owned_id();
    mgr.registry.add_peer(p);
    let mut out = Vec::new();
    mgr.connect_peers_now(&vec![id.clone()], NOW, &mut out);
    assert_eq!(peer(&mgr, &id).connectedness(), Connectedness::Connecting);
    assert_eq!(mgr.routine(NOW + 15, 0, &mut out), 0, "the dial is still live");
    assert_eq!(mgr.connecting.len(), 1);
    // the routine drops the expired dial, and the peer may be dialled again
    let dialled = mgr.routine(NOW + 16, 0, &mut out);
    assert_eq!(dialled, 1);
    assert_eq!(mgr.connecting.len(), 1);
    assert_eq!(mgr.connecting[0].started_at, NOW + 16);
    assert_eq!(peer(&mgr, &id).connectedness(), Connectedness::Connecting);
}

#[test]
fn should_able_to_tag_and_untag_peer() {
    let mut mgr = make_manager(20);
    let id = pid(3);
    mgr.tag(&id, Tag::Consensus);
    assert!(peer(&mgr, &id).tags.contains(TagKind::Consensus));
    mgr.untag(&id, TagKind::Consensus);
    assert!(!peer(&mgr, &id).tags.contains(TagKind::Consensus));
}

#[test]
fn unidentified_sessions_are_always_closed() {
    let mut mgr = make_manager(20);
    let mut out = Vec::new();
    let ctx = SessionContext { sid: 7, addr: make_multiaddr(1, None), ty: SessionType::Inbound };
    mgr.unidentified_session(&pid(1), ctx, NOW, &mut out);
    assert_eq!(disconnects(&out), vec![7]);
    assert_eq!(mgr.registry.connected(), 0);
}

#[test]
fn events_are_dispatched() {
    let mut mgr = make_manager(20);
    let id = pid(1);
    let mut out = Vec::new();
    let ctx = SessionContext { sid: 3, addr: make_multiaddr(1, None), ty: SessionType::Outbound };
    mgr.handle_event(
        PeerManagerEvent::NewSession { pid: id.clone(), pubkey: vec![1], key_id: id.clone(), ctx },
        NOW,
        0,
        &mut out,
    );
    assert_eq!(mgr.registry.connected(), 1);
    mgr.handle_event(PeerManagerEvent::SessionFailed { sid: 3, kind: SessionErrorKind::Unexpected }, NOW, 0, &mut out);
    assert_eq!(mgr.registry.connected(), 0);
    assert_eq!(disconnects(&out), vec![3]);
}

#[test]
fn bad_configuration_is_refused() {
    let mut config = make_config(10);
    config.inbound_conn_limit = 6;
    assert_eq!(PeerManager::new(config).err(), Some(ConfigError::ConnectionLimits));
    let mut config = make_config(10);
    config.peer_trust_config.alpha = 0;
    assert_eq!(PeerManager::new(config).err(), Some(ConfigError::TrustConfig));
}

#[test]
fn consensus_tag_moves_to_the_listed_peers() {
    let mut mgr = make_manager(20);
    mgr.tag_consensus(&vec![pid(1), pid(2)]);
    assert!(peer(&mgr, &pid(1)).tags.contains(TagKind::Consensus));
    assert!(peer(&mgr, &pid(2)).tags.contains(TagKind::Consensus));
    mgr.tag_consensus(&vec![pid(2), pid(3)]);
    assert!(!peer(&mgr, &pid(1)).tags.contains(TagKind::Consensus));
    assert!(peer(&mgr, &pid(2)).tags.contains(TagKind::Consensus));
    assert!(peer(&mgr, &pid(3)).tags.contains(TagKind::Consensus));
}

#[test]
fn should_always_include_our_listen_addrs_in_return_from_manager_handle_random_addrs() {
    let mut mgr = make_manager(20);
    let ids = make_sessions(&mut mgr, 3, 5000, SessionType::Outbound);
    mgr.add_new_listen_addr(&make_multiaddr(100, None));
    let ours = make_multiaddr(100, Some(mgr.config.our_id.clone()));
    let addrs = mgr.random_addrs(2, 1);
    assert_eq!(addrs[0], ours);
    assert_eq!(addrs.len(), 3);
    assert!(!addrs.contains(&make_multiaddr(5000, Some(ids[0].clone()))));
    assert_eq!(mgr.random_addrs(0, 0), vec![ours]);
}

#[test]
fn bootstraps_are_known_and_dialled_by_the_first_routine() {
    let mut config = make_config(20);
    config.bootstraps = (0..2u16)
        .map(|n| (pid(5000 + n), vec![make_multiaddr(5000 + n, None)]))
        .collect();
    let mut mgr = PeerManager::new(config).expect("manager");
    assert!(mgr.registry.contains(&pid(5000)));
    assert!(mgr.registry.contains(&pid(5001)));
    assert_eq!(peer(&mgr, &pid(5001)).multiaddrs.all(), vec![make_multiaddr(5001, Some(pid(5001)))]);
    let mut out = Vec::new();
    assert_eq!(mgr.routine(NOW, 0, &mut out), 2);
    assert_eq!(peer(&mgr, &pid(5000)).connectedness(), Connectedness::Connecting);
    assert_eq!(mgr.connecting.len(), 2);
}

#[test]
fn should_update_peer_alive_and_reset_retry_on_peer_alive() {
    let mut mgr = make_manager(20);
    let ids = make_sessions(&mut mgr, 1, 5000, SessionType::Outbound);
    let i = index_of(&mgr, &ids[0]);
    mgr.registry.peers[i].set_connected_at(NOW - 61);
    mgr.registry.peers[i].retry.inc();
    mgr.peer_alive(&ids[0], NOW);
    assert_eq!(peer(&mgr, &ids[0]).alive(), 61);
    assert_eq!(peer(&mgr, &ids[0]).retry.count(), 0);
}
