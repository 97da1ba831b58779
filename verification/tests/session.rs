use udpflow::Routed;
use udpflow::SockAddr;
use udpflow::SockMap;
use udpflow::UdpListener;

const MSG: &[u8] = b"Ciallo";

fn sender(port: u16) -> SockAddr {
    SockAddr::v4(127, 0, 0, 1, port)
}

/// Distinct peers sending one datagram each: one session per peer, and
/// each session's first read is that peer's bytes.
#[test]
fn one_session_per_peer() {
    let bind = sender(10000);
    let mut listener = UdpListener::new(bind, 32);
    let peers: [SockAddr; 3] = [sender(5000), sender(6000), sender(7000)];
    for (i, peer) in peers.iter().enumerate() {
        let routed = listener.accept(*peer, vec![i as u8; 4]);
        assert_eq!(routed, Routed::Accepted);
    }
    assert_eq!(listener.session_count(), 3);
    for (i, peer) in peers.iter().enumerate() {
        let first = listener.pop(*peer).unwrap();
        assert_eq!(first, vec![i as u8; 4]);
    }
}

/// Dropping a local endpoint removes its session; the peer's next
/// datagram is accepted into a fresh session, and the map holds exactly
/// one entry for that peer.
#[test]
fn reassociate_after_release() {
    let mut listener = UdpListener::new(sender(10000), 32);
    let peer = sender(5000);
    assert_eq!(listener.accept(peer, MSG.to_vec()), Routed::Accepted);
    assert_eq!(listener.accept(peer, MSG.to_vec()), Routed::Queued);
    assert_eq!(listener.session_count(), 1);

    // The endpoint goes away: its session is released.
    listener.release(peer);
    assert_eq!(listener.session_count(), 0);
    assert!(listener.pop(peer).is_none());

    // The same peer's next datagram starts over.
    assert_eq!(listener.accept(peer, b"again".to_vec()), Routed::Accepted);
    assert_eq!(listener.session_count(), 1);
    assert_eq!(listener.pop(peer).unwrap(), b"again".to_vec());
}

/// A session's payloads come out in the order the listener enqueued
/// them.
#[test]
fn session_queue_is_fifo() {
    let mut listener = UdpListener::new(sender(10000), 32);
    let peer = sender(5000);
    assert_eq!(listener.accept(peer, vec![1u8]), Routed::Accepted);
    for b in 2..=8u8 {
        assert_eq!(listener.accept(peer, vec![b]), Routed::Queued);
    }
    for b in 1..=8u8 {
        assert_eq!(listener.pop(peer).unwrap(), vec![b]);
    }
    assert!(listener.pop(peer).is_none());
}

/// Back-pressure: a full queue rejects nothing for good and loses no
/// datagram of any other session while one session is paused.
#[test]
fn backpressure_keeps_sessions_apart() {
    let mut listener = UdpListener::new(sender(10000), 4);
    let paused = sender(5000);
    let active = sender(6000);

    assert_eq!(listener.accept(paused, vec![0u8]), Routed::Accepted);
    for b in 1..=3u8 {
        assert_eq!(listener.accept(paused, vec![b]), Routed::Queued);
    }
    // The paused session's queue is at capacity now.
    assert_eq!(listener.accept(paused, vec![9u8]), Routed::Full);

    // The other session keeps flowing.
    assert_eq!(listener.accept(active, b"one".to_vec()), Routed::Accepted);
    assert_eq!(listener.accept(active, b"two".to_vec()), Routed::Queued);
    assert_eq!(listener.pop(active).unwrap(), b"one".to_vec());
    assert_eq!(listener.pop(active).unwrap(), b"two".to_vec());

    // The paused session lost nothing: all four datagrams are intact,
    // and the caller's retry of the fifth succeeds once room is made.
    assert_eq!(listener.pop(paused).unwrap(), vec![0u8]);
    assert_eq!(listener.accept(paused, vec![9u8]), Routed::Queued);
    for b in 1..=3u8 {
        assert_eq!(listener.pop(paused).unwrap(), vec![b]);
    }
    assert_eq!(listener.pop(paused).unwrap(), vec![9u8]);
}

/// The shared peer-to-handle map: lookup clones the handle out, insert
/// replaces, remove is what an endpoint does on drop.
#[test]
fn sockmap_operations() {
    let mut map = SockMap::new();
    let a = sender(5000);
    let b = sender(6000);

    assert!(map.get(&a).is_none());
    map.insert(a, 1);
    map.insert(b, 2);
    assert_eq!(map.len(), 2);
    assert_eq!(map.get(&a), Some(1));
    assert_eq!(map.get(&b), Some(2));

    map.insert(a, 7);
    assert_eq!(map.len(), 2);
    assert_eq!(map.get(&a), Some(7));

    map.remove(&a);
    assert!(map.get(&a).is_none());
    assert_eq!(map.get(&b), Some(2));
    assert_eq!(map.len(), 1);

    // Removing an absent peer changes nothing.
    map.remove(&a);
    assert_eq!(map.len(), 1);
}
