use udpflow::MemStream;
use udpflow::Routed;
use udpflow::SockAddr;
use udpflow::UdpListener;
use udpflow::UdpStreamLocal;
use udpflow::UdpStreamRemote;
use udpflow::UotStream;

const MSG: &[u8] = b"Ciallo";
const TIMEOUT: u64 = 60000;

fn addr(port: u16) -> SockAddr {
    SockAddr::v4(127, 0, 0, 1, port)
}

/// Five echo round trips over the framed codec: each side's wire holds
/// exactly the frames the other drained.
#[test]
fn framed_echo() {
    // One buffer per direction stands for the connected byte stream.
    let mut client_out = UotStream::new(MemStream::new(Vec::new(), 0, 7));
    for _ in 0..5u32 {
        client_out.write_all(&MSG.to_vec());
    }

    // The server drains the client's wire frame by frame and echoes.
    let mut server_in = UotStream::new(MemStream::new(client_out.io.data.clone(), 3, 0));
    let mut server_out = UotStream::new(MemStream::new(Vec::new(), 0, 5));
    for _ in 0..5u32 {
        let got = server_in.read();
        assert_eq!(got, MSG.to_vec());
        server_out.write_all(&got);
    }

    // The client reads the echoes back, bit for bit.
    let mut client_in = UotStream::new(MemStream::new(server_out.io.data.clone(), 1, 0));
    for _ in 0..5u32 {
        assert_eq!(client_in.read(), MSG.to_vec());
    }
}

/// Datagram relay: client to relay listener, relay to echo server
/// through a remote endpoint, and back, five times, with the reply
/// reaching the originating sender and only that sender.
#[test]
fn bidi_copy() {
    let bind = addr(10000);
    let sender = addr(5000);
    let recver = addr(15000);
    let mut listener = UdpListener::new(bind, 32);
    let now: u64 = 0;

    // First datagram opens the session and yields the local stream.
    assert_eq!(listener.accept(sender, MSG.to_vec()), Routed::Accepted);
    let mut upstream = UdpStreamLocal::new(bind, sender, now, TIMEOUT);
    let mut downstream = UdpStreamRemote::new(addr(0), recver, now, TIMEOUT);

    for round in 0..5u32 {
        if round > 0 {
            assert_eq!(listener.accept(sender, MSG.to_vec()), Routed::Queued);
        }
        // Relay forward: local stream read, remote stream write.
        let forward = upstream.read_step(&mut listener, 32, now, TIMEOUT).unwrap();
        assert_eq!(forward, MSG.to_vec());
        assert_eq!(downstream.peer_addr(), recver);

        // The echo server answers; relay backward to the sender.
        let reply = downstream.on_packet(&forward, 32, now, TIMEOUT);
        assert_eq!(reply, MSG.to_vec());
        assert_eq!(upstream.peer_addr(), sender);
    }
    // Only the sender's session exists: nobody else got anything.
    assert_eq!(listener.session_count(), 1);
}

/// A sender whose session was dropped mid-run is re-accepted on its
/// next datagram and the relay keeps echoing to it.
#[test]
fn bidi_copy_reassociate() {
    let bind = addr(10000);
    let sender = addr(5000);
    let mut listener = UdpListener::new(bind, 32);
    let now: u64 = 0;

    let mut stream: Option<UdpStreamLocal> = None;
    for round in 0..10u32 {
        let routed = listener.accept(sender, MSG.to_vec());
        match routed {
            Routed::Accepted => {
                stream = Some(UdpStreamLocal::new(bind, sender, now, TIMEOUT));
            },
            Routed::Queued => {},
            Routed::Full => panic!("queue never fills in this run"),
        }
        let endpoint = stream.as_mut().unwrap();
        let got = endpoint.read_step(&mut listener, 32, now, TIMEOUT).unwrap();
        assert_eq!(got, MSG.to_vec());

        // Halfway through, the relay drops the endpoint; the session
        // disappears and the next datagram must re-open it.
        if round == 4 {
            listener.release(endpoint.peer_addr());
            stream = None;
            assert_eq!(listener.session_count(), 0);
        }
    }
    assert_eq!(listener.session_count(), 1);
}

/// UDP through TCP and back: datagrams framed onto a byte stream by
/// one relay, unframed by the other, five round trips, payload intact
/// and attributed to the right addresses.
#[test]
fn bidi_copy_uot() {
    let relay1 = addr(10000);
    let sender = addr(5000);
    let recver = addr(20000);
    let now: u64 = 0;

    let mut listener = UdpListener::new(relay1, 32);
    assert_eq!(listener.accept(sender, MSG.to_vec()), Routed::Accepted);
    let mut upstream = UdpStreamLocal::new(relay1, sender, now, TIMEOUT);

    // Relay A frames each datagram onto the TCP leg.
    let mut tcp_forward = UotStream::new(MemStream::new(Vec::new(), 0, 2));
    for round in 0..5u32 {
        if round > 0 {
            assert_eq!(listener.accept(sender, MSG.to_vec()), Routed::Queued);
        }
        let payload = upstream.read_step(&mut listener, 32, now, TIMEOUT).unwrap();
        tcp_forward.write_all(&payload);
    }

    // Relay B unframes and emits datagrams to the echo server.
    let mut tcp_at_b = UotStream::new(MemStream::new(tcp_forward.io.data.clone(), 1, 0));
    let mut to_echo = UdpStreamRemote::new(addr(0), recver, now, TIMEOUT);
    let mut tcp_backward = UotStream::new(MemStream::new(Vec::new(), 0, 3));
    for _ in 0..5u32 {
        let datagram = tcp_at_b.read();
        assert_eq!(datagram, MSG.to_vec());
        assert_eq!(to_echo.peer_addr(), recver);
        // The echo server replies with the same bytes; relay B frames
        // the reply back onto the TCP leg.
        let reply = to_echo.on_packet(&datagram, 32, now, TIMEOUT);
        tcp_backward.write_all(&reply);
    }

    // Relay A unframes the replies and sends each to the original
    // sender, bit for bit.
    let mut tcp_at_a = UotStream::new(MemStream::new(tcp_backward.io.data.clone(), 4, 0));
    for _ in 0..5u32 {
        let reply = tcp_at_a.read();
        assert_eq!(reply, MSG.to_vec());
        assert_eq!(upstream.peer_addr(), sender);
    }
}
