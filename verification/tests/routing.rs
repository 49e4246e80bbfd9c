//! Router decisions: score-based selection, fresh candidates, and the
//! loopback guard.

use routeweaver::peer::Address;
use routeweaver::peer::IpAddress;
use routeweaver::peer::Peer;
use routeweaver::peer::Protocol;
use routeweaver::router::choose_candidate;
use routeweaver::router::may_forward_to;
use routeweaver::router::PeerEvent;
use routeweaver::router::ScoreKeeper;

fn peer(last: u8) -> Peer {
    Peer {
        protocol: Protocol::Tcp,
        address: Address::Ip {
            address: IpAddress::V4([10, 0, 0, last]),
            port: 1000,
        },
    }
}

#[test]
fn router_prefers_best_score() {
    let a = peer(1);
    let b = peer(2);
    let mut keeper = ScoreKeeper::new();
    keeper.insert(
        a,
        PeerEvent {
            time_taken_millis: 1000,
            failed: false,
        },
    );
    keeper.insert(
        b,
        PeerEvent {
            time_taken_millis: 1000,
            failed: true,
        },
    );

    // Every non-new-candidate decision picks the best-scoring peer.
    for _ in 0..10 {
        assert_eq!(choose_candidate(&keeper, None, false), Some(a));
    }

    // On the new-candidate draw a freshly notified peer is eligible.
    let c = peer(3);
    assert_eq!(choose_candidate(&keeper, Some(c), true), Some(c));
}

#[test]
fn score_window_forgets_old_failures() {
    let a = peer(1);
    let b = peer(2);
    let mut keeper = ScoreKeeper::new();
    // Peer a starts with one failure, then out-performs it; peer b is
    // slow and mediocre.
    keeper.insert(
        a,
        PeerEvent {
            time_taken_millis: 5000,
            failed: true,
        },
    );
    for _ in 0..60 {
        keeper.insert(
            a,
            PeerEvent {
                time_taken_millis: 100,
                failed: false,
            },
        );
    }
    keeper.insert(
        b,
        PeerEvent {
            time_taken_millis: 10,
            failed: false,
        },
    );
    assert_eq!(choose_candidate(&keeper, None, false), Some(a));
}

#[test]
fn loopback_guard_blocks_origin() {
    let origin = peer(9);
    // Within the grace window the origin is never chosen again.
    for tries in 1..=5u8 {
        assert!(!may_forward_to(&origin, &Some(origin), tries));
    }
    // Once the counter runs out the guard lifts.
    assert!(may_forward_to(&origin, &Some(origin), 0));
    // Other peers are always allowed.
    assert!(may_forward_to(&peer(1), &Some(origin), 3));
    assert!(may_forward_to(&peer(1), &None, 3));
}

#[test]
fn empty_keeper_has_no_candidate() {
    let keeper = ScoreKeeper::new();
    assert_eq!(choose_candidate(&keeper, None, false), None);
}
