use udpflow::MemStream;
use udpflow::UotStream;
use udpflow::frame::FrameReader;
use udpflow::frame::encode;

/// One frame, decoded through every chunk size of the transport.
#[test]
fn round_trip_any_chunking() {
    let payload: Vec<u8> = (0..=255u8).collect();
    let wire: Vec<u8> = encode(&payload);
    for rlimit in 1..=wire.len() {
        let mut stream = UotStream::new(MemStream::new(wire.clone(), rlimit, 0));
        let got: Vec<u8> = stream.read();
        assert_eq!(got, payload);
        // The decoder is back at a frame boundary: nothing more arrives,
        // so the next read reports end-of-stream.
        assert_eq!(stream.read().len(), 0);
    }
}

/// Several frames written under every write throttle drain back to the
/// identical concatenation of length-prefixed frames.
#[test]
fn write_stream_any_throttle() {
    let payloads: Vec<Vec<u8>> = vec![
        vec![1u8],
        vec![2u8; 300],
        b"Ciallo".to_vec(),
        vec![3u8; 512],
    ];
    let mut expected: Vec<u8> = Vec::new();
    for p in &payloads {
        expected.extend_from_slice(&encode(p));
    }
    for wlimit in 1..=64usize {
        let mut stream = UotStream::new(MemStream::new(Vec::new(), 0, wlimit));
        stream.write_frames(&payloads);
        assert_eq!(stream.io.data, expected);
    }
    // And the wire parses back to exactly those payloads.
    let mut reader = UotStream::new(MemStream::new(expected, 3, 0));
    for p in &payloads {
        assert_eq!(&reader.read(), p);
    }
}

/// Per-call acceptance limits that vary from call to call still put
/// exactly the length-prefixed frame on the wire.
#[test]
fn write_varying_schedule() {
    let payload: Vec<u8> = (0..100u8).collect();
    let limits: [usize; 7] = [1, 3, 2, 5, 1, 7, 4];
    let mut stream = UotStream::new(MemStream::new(Vec::new(), 0, 1));
    let mut reported: usize = 0;
    let mut call: usize = 0;
    while reported < payload.len() {
        stream.io.wlimit = limits[call % limits.len()];
        reported += stream.write(&payload);
        call += 1;
    }
    assert_eq!(stream.io.data, encode(&payload));
    assert_eq!(stream.wr.cursor, 0);
}

/// Length prefix split across reads at every offset: none of the
/// prefix, one byte of it, or both bytes in the first chunk.
#[test]
fn prefix_split_offsets() {
    let payload: Vec<u8> = b"Ciallo".to_vec();
    let wire: Vec<u8> = encode(&payload);
    for offset in 0..=2usize {
        let mut reader = FrameReader::new();
        let mut got: Option<Vec<u8>> = None;
        if offset > 0 {
            got = reader.feed_chunk(&wire[..offset].to_vec());
            assert!(got.is_none());
        }
        let mut at: usize = offset;
        while got.is_none() {
            let need: usize = reader.need();
            assert!(need >= 1);
            let end: usize = (at + need).min(wire.len());
            got = reader.feed_chunk(&wire[at..end].to_vec());
            at = end;
        }
        assert_eq!(got.unwrap(), payload);
        assert_eq!(at, wire.len());
    }
}

/// Boundary payload lengths at both the encoder and the decoder.
#[test]
fn boundary_lengths() {
    for len in [0usize, 1, 65534, 65535] {
        let payload: Vec<u8> = vec![0xabu8; len];
        let wire: Vec<u8> = encode(&payload);
        assert_eq!(wire.len(), len + 2);
        assert_eq!(u16::from_be_bytes([wire[0], wire[1]]) as usize, len);

        // The byte-stream writer covers every non-empty length; the
        // empty frame is representable on the wire but no ordinary
        // write produces it.
        if len >= 1 {
            let mut stream = UotStream::new(MemStream::new(Vec::new(), 0, 4096));
            stream.write_all(&payload);
            assert_eq!(stream.io.data, wire);
        }

        let mut reader = UotStream::new(MemStream::new(wire, 4096, 0));
        let got: Vec<u8> = reader.read();
        assert_eq!(got, payload);
    }
}

/// End-of-stream on read before any bytes, mid-prefix, and mid-payload.
#[test]
fn read_eof_cases() {
    // Before any bytes: reads complete with zero and keep doing so.
    let mut empty = UotStream::new(MemStream::new(Vec::new(), 16, 0));
    assert_eq!(empty.read().len(), 0);
    assert_eq!(empty.read().len(), 0);

    // Mid-prefix: one length byte then nothing; zero bytes, terminated.
    let mut midpre = UotStream::new(MemStream::new(vec![0u8], 16, 0));
    assert_eq!(midpre.read().len(), 0);
    assert_eq!(midpre.read().len(), 0);

    // Mid-payload: the prefix promises 6 bytes, only 3 arrive; the read
    // completes with what was delivered, then the stream stays ended.
    let mut midpay = UotStream::new(MemStream::new(vec![0u8, 6, b'C', b'i', b'a'], 2, 0));
    assert_eq!(midpay.read(), b"Cia".to_vec());
    assert_eq!(midpay.read().len(), 0);
}

/// Zero-byte acceptance on write before any bytes, mid-prefix, and
/// mid-payload: the writer terminates and reports zero from then on.
#[test]
fn write_eof_cases() {
    let payload: Vec<u8> = b"Ciallo".to_vec();

    // Before any bytes.
    let mut dead = UotStream::new(MemStream::new(Vec::new(), 0, 0));
    assert_eq!(dead.write(&payload), 0);
    assert!(dead.wr.fin);
    assert_eq!(dead.write(&payload), 0);
    assert_eq!(dead.io.data.len(), 0);

    // Mid-prefix: the transport takes one prefix byte, then dies.  No
    // payload progress was ever reported.
    let mut midpre = UotStream::new(MemStream::new(Vec::new(), 0, 1));
    assert_eq!(midpre.write(&payload), 0);
    assert_eq!(midpre.io.data.len(), 1);
    midpre.io.wlimit = 0;
    assert_eq!(midpre.write(&payload), 0);
    assert!(midpre.wr.fin);
    assert_eq!(midpre.write(&payload), 0);
    assert_eq!(midpre.io.data.len(), 1);

    // Mid-payload: prefix plus one payload byte, then the transport
    // dies; the one byte was reported, nothing after.
    let mut midpay = UotStream::new(MemStream::new(Vec::new(), 0, 3));
    assert_eq!(midpay.write(&payload), 1);
    assert_eq!(midpay.io.data, vec![0u8, 6, b'C']);
    midpay.io.wlimit = 0;
    assert_eq!(midpay.write(&payload), 0);
    assert!(midpay.wr.fin);
    assert_eq!(midpay.write(&payload), 0);
}

/// The reported count of a framed write never includes the two prefix
/// bytes, and the prefix is committed atomically from the caller's
/// point of view.
#[test]
fn prefix_is_atomic() {
    let payload: Vec<u8> = b"Ciallo".to_vec();
    let mut stream = UotStream::new(MemStream::new(Vec::new(), 0, 1));
    let mut reported: Vec<usize> = Vec::new();
    let mut total: usize = 0;
    while total < payload.len() {
        let n: usize = stream.write(&payload);
        reported.push(n);
        total += n;
    }
    // One byte accepted per call: two calls report zero while the
    // prefix goes out, then one payload byte per call.
    assert_eq!(reported[0], 0);
    assert_eq!(reported[1], 0);
    assert!(reported[2..].iter().all(|n| *n == 1));
    assert_eq!(total, payload.len());
    assert_eq!(stream.io.data, encode(&payload));
}
