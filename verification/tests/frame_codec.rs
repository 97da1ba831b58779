use udpflow::MemStream;
use udpflow::UotStream;

const MAX_DATAGRAM_PAYLOAD: usize = 65507;

#[test]
fn read_framed() {
    fn limit_at(rlimit: usize) {
        let dummy: Vec<u8> = vec![b'r'; 1024];
        let mut buf: Vec<u8> = Vec::with_capacity(MAX_DATAGRAM_PAYLOAD);
        for i in 1..=512usize {
            buf.extend_from_slice(&(i as u16).to_be_bytes());
            buf.extend_from_slice(&dummy[..i]);
        }
        let mut stream = UotStream::new(MemStream::new(buf, rlimit, 0));
        for i in 1..=512usize {
            let payload = stream.read();
            assert_eq!(payload.len(), i);
            assert_eq!(&payload[..], &dummy[..i]);
        }
    }
    for i in 1..=512usize {
        limit_at(i);
    }
}

#[test]
fn write_framed() {
    fn limit_at(wlimit: usize) {
        let dummy: Vec<u8> = vec![b'w'; 1024];
        let mut stream = UotStream::new(MemStream::new(
            Vec::with_capacity(MAX_DATAGRAM_PAYLOAD),
            0,
            wlimit,
        ));
        for i in 1..=512usize {
            let prev: usize = stream.io.data.len();
            stream.write_all(&dummy[..i].to_vec());
            let next: usize = stream.io.data.len();
            let buf = &stream.io.data;
            assert_eq!(next - prev, i + 2);
            assert_eq!(u16::from_be_bytes([buf[prev], buf[prev + 1]]), i as u16);
            assert_eq!(&buf[prev + 2..next], &dummy[..i]);
        }
    }
    for i in 1..=512usize {
        limit_at(i);
    }
}
