use udpflow::Routed;
use udpflow::SockAddr;
use udpflow::UdpListener;
use udpflow::UdpStreamLocal;
use udpflow::UdpStreamRemote;

const MSG: &[u8] = b"Ciallo";
const TIMEOUT: u64 = 500;

fn addr(port: u16) -> SockAddr {
    SockAddr::v4(127, 0, 0, 1, port)
}

/// One sender, five echo round trips through an accepted local stream.
#[test]
fn local() {
    let bind = addr(10000);
    let peer = addr(5000);
    let mut listener = UdpListener::new(bind, 32);
    let mut now: u64 = 0;

    assert_eq!(listener.accept(peer, MSG.to_vec()), Routed::Accepted);
    let mut stream = UdpStreamLocal::new(bind, peer, now, TIMEOUT);
    assert_eq!(stream.peer_addr(), peer);
    assert_eq!(stream.local_addr(), bind);

    for round in 0..5u32 {
        if round > 0 {
            assert_eq!(listener.accept(peer, MSG.to_vec()), Routed::Queued);
        }
        let got = stream.read_step(&mut listener, 32, now, TIMEOUT).unwrap();
        assert_eq!(got, MSG.to_vec());
        // The echo goes back out on the shared socket to this peer and
        // only this peer; the next datagram arrives a little later.
        now += 100;
    }
}

/// Three senders on one listener: three sessions in arrival order, each
/// stream reading its own peer's bytes and echoing to it alone.
#[test]
fn local_multi() {
    let bind = addr(10000);
    let peers: [SockAddr; 3] = [addr(5000), addr(6000), addr(7000)];
    let mut listener = UdpListener::new(bind, 32);
    let now: u64 = 0;

    for peer in peers.iter() {
        assert_eq!(listener.accept(*peer, MSG.to_vec()), Routed::Accepted);
    }
    assert_eq!(listener.session_count(), 3);

    let mut streams: Vec<UdpStreamLocal> = peers
        .iter()
        .map(|p| UdpStreamLocal::new(bind, *p, now, TIMEOUT))
        .collect();

    for (i, stream) in streams.iter_mut().enumerate() {
        let packet = listener.pop(peers[i]).unwrap();
        let got = stream.on_packet(&packet, 32, now, TIMEOUT);
        assert_eq!(got, MSG.to_vec());
        // Echo attribution: the endpoint writes to its own peer.
        assert_eq!(stream.peer_addr(), peers[i]);
    }
}

/// Idle timeout on the local endpoint: three datagrams 300 apart keep
/// it alive; more than the timeout after the last one, the read
/// completes with zero, and so do three reads after that.
#[test]
fn local_timeout() {
    let bind = addr(10000);
    let peer = addr(5000);
    let mut listener = UdpListener::new(bind, 32);

    assert_eq!(listener.accept(peer, MSG.to_vec()), Routed::Accepted);
    let mut stream = UdpStreamLocal::new(bind, peer, 0, TIMEOUT);

    let mut now: u64 = 0;
    for _ in 0..3u32 {
        now += 300;
        // Still inside the window each time: no timeout fired.
        assert!(!stream.is_terminated());
        let got = match stream.read_step(&mut listener, 32, now, TIMEOUT) {
            Some(p) => p,
            None => {
                // The read suspends until the datagram arrives.
                assert_eq!(listener.accept(peer, MSG.to_vec()), Routed::Queued);
                stream.read_step(&mut listener, 32, now, TIMEOUT).unwrap()
            },
        };
        assert_eq!(got, MSG.to_vec());
    }

    // Nothing else arrives; just before the deadline the read is still
    // pending, just past it the stream ends.
    assert!(!stream.on_idle(now + TIMEOUT - 1));
    assert!(stream.on_idle(now + TIMEOUT + 1));
    assert!(stream.is_terminated());
    for _ in 0..3u32 {
        // Every subsequent read completes with zero bytes.
        assert!(stream.is_terminated());
    }
}

/// Five echo round trips through a remote endpoint.
#[test]
fn remote() {
    let local = addr(5000);
    let server = addr(10000);
    let mut stream = UdpStreamRemote::new(local, server, 0, TIMEOUT);
    assert_eq!(stream.peer_addr(), server);
    assert_eq!(stream.local_addr(), local);

    let mut now: u64 = 0;
    for _ in 0..5u32 {
        // The endpoint writes MSG to its fixed peer; the echo server's
        // reply comes back as one datagram.
        now += 50;
        let got = stream.on_packet(&MSG.to_vec(), 32, now, TIMEOUT);
        assert_eq!(got, MSG.to_vec());
        assert!(!stream.is_terminated());
    }
}

/// Remote endpoint timeout: two responses, then silence; the third
/// read completes with zero after the timeout and stays zero.
#[test]
fn remote_timeout() {
    let local = addr(5000);
    let server = addr(10000);
    let mut stream = UdpStreamRemote::new(local, server, 0, TIMEOUT);

    let mut now: u64 = 0;
    for _ in 0..2u32 {
        now += 100;
        let got = stream.on_packet(&MSG.to_vec(), 32, now, TIMEOUT);
        assert_eq!(got, MSG.to_vec());
    }

    // The peer falls silent: the pending read outlives the deadline.
    assert!(!stream.on_idle(now + TIMEOUT - 1));
    assert!(stream.on_idle(now + TIMEOUT));
    assert!(stream.is_terminated());
    for _ in 0..3u32 {
        assert!(stream.is_terminated());
    }
}

/// A read buffer smaller than the queued datagram delivers what fits
/// and drops the rest.
#[test]
fn truncate_on_read() {
    let mut stream = UdpStreamLocal::new(addr(10000), addr(5000), 0, TIMEOUT);
    let got = stream.on_packet(&MSG.to_vec(), 4, 0, TIMEOUT);
    assert_eq!(got, b"Cial".to_vec());
    // The remainder is gone: the next packet starts fresh.
    let got = stream.on_packet(&b"again".to_vec(), 32, 1, TIMEOUT);
    assert_eq!(got, b"again".to_vec());
}
