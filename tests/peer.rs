use peer_manager::addr::Multiaddr;
use peer_manager::peer::{Connectedness, Peer, PeerError, PeerId};
use peer_manager::tags::{Retry, Tag, TagKind, Tags};
use peer_manager::trust::{TrustMetric, TrustMetricConfig};

const LOCALHOST: u32 = 0x7f00_0001;

fn now() -> u64 {
    1_700_000_000
}

#[test]
fn should_be_able_to_convert_between_connectedness_and_usize() {
    assert_eq!(usize::from(Connectedness::NotConnected), 0usize);
    assert_eq!(usize::from(Connectedness::CanConnect), 1usize);
    assert_eq!(usize::from(Connectedness::Connected), 2usize);
    assert_eq!(usize::from(Connectedness::Unconnectable), 3usize);
    assert_eq!(usize::from(Connectedness::Connecting), 4usize);

    assert_eq!(Connectedness::from(0usize), Connectedness::NotConnected);
    assert_eq!(Connectedness::from(1usize), Connectedness::CanConnect);
    assert_eq!(Connectedness::from(2usize), Connectedness::Connected);
    assert_eq!(Connectedness::from(3usize), Connectedness::Unconnectable);
    assert_eq!(Connectedness::from(4usize), Connectedness::Connecting);
    assert_eq!(Connectedness::from(5usize), Connectedness::NotConnected);
}

#[test]
fn should_reset_trust_metric_history_after_unban() {
    let id = PeerId::new(vec![7, 7, 7]);
    let mut peer = Peer::from_pubkey(vec![2, 3, 4], id);
    let mut trust_metric = TrustMetric::new(TrustMetricConfig::default_config());
    for _ in 0..2 {
        trust_metric.bad_events(10);
        trust_metric.enter_new_interval();
    }
    assert_eq!(trust_metric.trust_score(), None, "no opinion before three intervals");
    peer.set_trust_metric(trust_metric);

    peer.tags.insert(Tag::Ban { until: now() - 20 });
    assert!(!peer.banned(now()), "should unban");

    assert_eq!(
        peer.trust_metric.as_ref().expect("metric").intervals(),
        0,
        "should reset peer trust history"
    );
}

#[test]
fn trust_score_has_no_opinion_before_three_intervals() {
    let mut m = TrustMetric::new(TrustMetricConfig::default_config());
    assert_eq!(m.trust_score(), None);
    m.good_events(1);
    m.enter_new_interval();
    m.good_events(1);
    m.enter_new_interval();
    assert_eq!(m.trust_score(), None);
    m.good_events(1);
    m.enter_new_interval();
    assert_eq!(m.trust_score(), Some(100));
}

#[test]
fn trust_score_weights_recent_intervals() {
    let mut m = TrustMetric::new(TrustMetricConfig::default_config());
    m.good_events(1);
    m.enter_new_interval();
    m.bad_events(1);
    m.enter_new_interval();
    m.good_events(1);
    m.enter_new_interval();
    // 100, then 30% of 0 and 70% of 100 = 70, then 30% of 100 and 70% of 70 = 79
    assert_eq!(m.trust_score(), Some(79));
    // the running interval counts once it saw an event: 30% of 0 and 70% of 79
    m.bad_events(1);
    assert_eq!(m.trust_score(), Some(55));
}

#[test]
fn trust_score_of_even_intervals_is_fifty() {
    let mut m = TrustMetric::new(TrustMetricConfig::default_config());
    for _ in 0..30 {
        m.good_events(1);
        m.bad_events(1);
        m.enter_new_interval();
    }
    assert_eq!(m.trust_score(), Some(50));
    assert_eq!(m.intervals(), 30);
}

#[test]
fn trust_history_is_bounded() {
    let config = TrustMetricConfig::new(60, 3, 50).expect("config");
    let mut m = TrustMetric::new(config);
    for _ in 0..5 {
        m.good_events(2);
        m.enter_new_interval();
    }
    assert_eq!(m.intervals(), 3);
    assert_eq!(m.good_events_count(), 0);
}

#[test]
fn trust_config_out_of_range_is_refused() {
    assert!(TrustMetricConfig::new(0, 10, 30).is_none());
    assert!(TrustMetricConfig::new(60, 0, 30).is_none());
    assert!(TrustMetricConfig::new(60, 10, 0).is_none());
    assert!(TrustMetricConfig::new(60, 10, 101).is_none());
    assert!(TrustMetricConfig::new(60, 10, 100).is_some());
}

#[test]
fn trust_metric_ticks_only_while_running() {
    let mut m = TrustMetric::new(TrustMetricConfig::default_config());
    m.good_events(1);
    m.tick(1000);
    assert_eq!(m.intervals(), 0);
    m.start(1000);
    m.tick(1059);
    assert_eq!(m.intervals(), 0);
    m.tick(1060);
    assert_eq!(m.intervals(), 1);
    m.pause();
    m.tick(5000);
    assert_eq!(m.intervals(), 1);
    m.reset_history();
    assert_eq!(m.intervals(), 0);
    assert!(!m.is_started());
}

#[test]
fn tag_then_untag_restores_tags() {
    let mut tags = Tags::new();
    tags.insert(Tag::AlwaysAllow);
    let before = tags;
    tags.insert(Tag::Consensus);
    assert!(tags.contains(TagKind::Consensus));
    tags.remove(TagKind::Consensus);
    assert_eq!(tags, before);

    tags.insert(Tag::Ban { until: 10 });
    tags.remove(TagKind::Ban);
    assert_eq!(tags, before);
}

#[test]
fn ban_replaces_earlier_ban() {
    let mut tags = Tags::new();
    tags.insert_ban(100, 50);
    assert_eq!(tags.get_banned_until(), Some(150));
    tags.insert_ban(100, 10);
    assert_eq!(tags.get_banned_until(), Some(110));
    tags.insert_ban(u64::MAX - 1, 10);
    assert_eq!(tags.get_banned_until(), Some(u64::MAX));
    assert_eq!(tags.to_vec(), vec![Tag::Ban { until: u64::MAX }]);
}

#[test]
fn retry_back_off_doubles_up_to_a_ceiling() {
    let mut retry = Retry::new();
    assert_eq!(retry.eta(), 2);
    retry.inc();
    assert_eq!(retry.eta(), 4);
    retry.set(5);
    assert_eq!(retry.eta(), 64);
    retry.set(7);
    assert_eq!(retry.eta(), 256);
    retry.set(100);
    assert_eq!(retry.eta(), 256);
    retry.reset();
    assert_eq!(retry.count(), 0);
}

#[test]
fn public_key_must_match_peer_id() {
    let mut peer = Peer::new(PeerId::new(vec![1, 2, 3]));
    assert_eq!(
        peer.set_pubkey(vec![9], &PeerId::new(vec![1, 2, 4])),
        Err(PeerError::PublicKeyNotMatchId)
    );
    assert!(!peer.has_pubkey());
    assert_eq!(peer.set_pubkey(vec![9], &PeerId::new(vec![1, 2, 3])), Ok(()));
    assert_eq!(peer.owned_pubkey(), Some(vec![9]));
}

#[test]
fn peer_address_set_pushes_owner_id() {
    let id = PeerId::new(vec![5, 5]);
    let mut peer = Peer::new(id.clone());
    let bare = Multiaddr::new(LOCALHOST, 2077, None);
    peer.multiaddrs.insert(&bare);
    let with_id = Multiaddr::new(LOCALHOST, 2077, Some(id.clone()));
    assert_eq!(peer.multiaddrs.all(), vec![with_id.clone()]);
    assert!(peer.multiaddrs.contains(&bare));
    peer.multiaddrs.inc_failure(&with_id);
    assert_eq!(peer.multiaddrs.failure(&with_id), Some(1));
    peer.multiaddrs.insert(&with_id);
    assert_eq!(peer.multiaddrs.failure(&with_id), Some(1));
    assert_eq!(peer.multiaddrs.len(), 1);
    peer.multiaddrs.give_up(&with_id);
    assert_eq!(peer.multiaddrs.connectable_len(), 0);
    assert!(peer.multiaddrs.connectable().is_empty());
    peer.multiaddrs.reset_failure(&bare);
    assert_eq!(peer.multiaddrs.connectable_len(), 1);
    peer.multiaddrs.remove(&bare);
    assert_eq!(peer.multiaddrs.len(), 0);
}

#[test]
fn peer_marks_connection_state() {
    let mut peer = Peer::new(PeerId::new(vec![8]));
    peer.retry.inc();
    peer.mark_connected(42, 1000);
    assert_eq!(peer.connectedness(), Connectedness::Connected);
    assert_eq!(peer.session_id(), 42);
    assert_eq!(peer.retry.count(), 0);
    assert_eq!(peer.connected_at(), 1000);
    peer.mark_disconnected(1090);
    assert_eq!(peer.connectedness(), Connectedness::CanConnect);
    assert_eq!(peer.session_id(), 0);
    assert_eq!(peer.disconnected_at(), 1090);
    assert_eq!(peer.alive(), 90);
}
