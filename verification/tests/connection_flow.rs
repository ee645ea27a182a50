use http_server_rust::connection::{Conn, ConnectionStatus, Interest, ReadEvent, WriteEvent};
use http_server_rust::table::ConnTable;

const ECHO_REQUEST: &[u8] = b"GET /echo/stream HTTP/1.1\r\n\r\n";
const ECHO_RESPONSE: &[u8] =
    b"HTTP/1.1 200 OK\r\nContent-Type: text/plain\r\nContent-Length: 6\r\n\r\nstream";

#[test]
fn one_read_produces_the_response() {
    let c = Conn::new();
    let (c, st) = c.on_read_event(ReadEvent::Data(ECHO_REQUEST.to_vec()));
    assert!(matches!(st, ConnectionStatus::WouldBlock));
    assert!(matches!(c.interest(), Interest::Write));
    assert_eq!(c.pending(), ECHO_RESPONSE.to_vec());
}

#[test]
fn chunked_reads_produce_the_same_response() {
    // deliver the request one byte at a time
    let mut c = Conn::new();
    for b in ECHO_REQUEST {
        let (c2, _) = c.on_read_event(ReadEvent::Data(vec![*b]));
        c = c2;
    }
    assert!(matches!(c.interest(), Interest::Write));
    assert_eq!(c.pending(), ECHO_RESPONSE.to_vec());

    // and again in two uneven chunks
    let mut d = Conn::new();
    let (left, right) = ECHO_REQUEST.split_at(11);
    let (d2, _) = d.on_read_event(ReadEvent::Data(left.to_vec()));
    d = d2;
    assert!(matches!(d.interest(), Interest::Read));
    let (d3, _) = d.on_read_event(ReadEvent::Data(right.to_vec()));
    assert_eq!(d3.pending(), ECHO_RESPONSE.to_vec());
}

#[test]
fn body_bytes_are_awaited_before_dispatch() {
    let raw = b"POST /json HTTP/1.1\r\nContent-Length: 20\r\n\r\n{\"id\":0,\"value\":\"a\"}";
    let (head, body) = raw.split_at(raw.len() - 10);
    let c = Conn::new();
    let (c, _) = c.on_read_event(ReadEvent::Data(head.to_vec()));
    // terminator seen, but the declared body is not complete yet
    assert!(matches!(c.interest(), Interest::Read));
    let (c, _) = c.on_read_event(ReadEvent::Data(body.to_vec()));
    assert!(matches!(c.interest(), Interest::Write));
    assert_eq!(
        c.pending(),
        b"HTTP/1.1 200 OK\r\nContent-Type: application/json\r\nContent-Length: 20\r\n\r\n{\"id\":1,\"value\":\"a\"}"
            .to_vec()
    );
}

#[test]
fn would_block_leaves_the_connection_reading() {
    let c = Conn::new();
    let (c, st) = c.on_read_event(ReadEvent::WouldBlock);
    assert!(matches!(st, ConnectionStatus::WouldBlock));
    assert!(matches!(c.interest(), Interest::Read));
}

#[test]
fn read_error_fails_the_connection() {
    let c = Conn::new();
    let (c, st) = c.on_read_event(ReadEvent::IoError);
    assert!(matches!(st, ConnectionStatus::Error));
    assert!(matches!(c.interest(), Interest::Close));
}

#[test]
fn partial_writes_of_every_chunk_size_deliver_the_exact_bytes() {
    for step in 1..=ECHO_RESPONSE.len() {
        let c = Conn::new();
        let (mut c, _) = c.on_read_event(ReadEvent::Data(ECHO_REQUEST.to_vec()));
        let mut wire: Vec<u8> = Vec::new();
        loop {
            let pending = c.pending();
            if pending.is_empty() {
                break;
            }
            let n = step.min(pending.len());
            wire.extend_from_slice(&pending[..n]);
            let (c2, _) = c.on_write_event(WriteEvent::Wrote(n));
            c = c2;
        }
        assert!(matches!(c.interest(), Interest::Flush));
        assert_eq!(wire, ECHO_RESPONSE.to_vec());
        let (c, st) = c.on_flush_event(true);
        assert!(matches!(st, ConnectionStatus::Complete));
        assert!(matches!(c.interest(), Interest::Close));
    }
}

#[test]
fn a_write_of_zero_bytes_means_the_peer_stopped_reading() {
    let c = Conn::new();
    let (c, _) = c.on_read_event(ReadEvent::Data(ECHO_REQUEST.to_vec()));
    let (c, st) = c.on_write_event(WriteEvent::Wrote(0));
    assert!(matches!(st, ConnectionStatus::Complete));
    assert!(matches!(c.interest(), Interest::Close));
}

#[test]
fn interleaved_connections_do_not_contaminate_each_other() {
    let mut t = ConnTable::new();
    assert!(t.register_accepted(3));
    assert!(t.register_accepted(4));
    assert!(!t.register_accepted(3));

    let req_a: &[u8] = b"GET /echo/aaa HTTP/1.1\r\n\r\n";
    let req_b: &[u8] = b"GET /echo/zz HTTP/1.1\r\n\r\n";
    let (a1, a2) = req_a.split_at(9);
    let (b1, b2) = req_b.split_at(14);

    // interleave the two connections' reads
    t.deliver_read(3, ReadEvent::Data(a1.to_vec())).expect("known fd");
    t.deliver_read(4, ReadEvent::Data(b1.to_vec())).expect("known fd");
    t.deliver_read(3, ReadEvent::Data(a2.to_vec())).expect("known fd");
    t.deliver_read(4, ReadEvent::Data(b2.to_vec())).expect("known fd");

    let pa = t.pending_of(3).expect("known fd");
    let pb = t.pending_of(4).expect("known fd");
    assert_eq!(
        pa,
        b"HTTP/1.1 200 OK\r\nContent-Type: text/plain\r\nContent-Length: 3\r\n\r\naaa".to_vec()
    );
    assert_eq!(
        pb,
        b"HTTP/1.1 200 OK\r\nContent-Type: text/plain\r\nContent-Length: 2\r\n\r\nzz".to_vec()
    );

    // advancing one connection's write leaves the other's bytes untouched
    t.deliver_write(3, WriteEvent::Wrote(5)).expect("known fd");
    assert_eq!(t.pending_of(4).expect("known fd"), pb);
    assert_eq!(t.pending_of(3).expect("known fd"), pa[5..].to_vec());

    // events for unknown descriptors change nothing
    assert!(t.deliver_read(99, ReadEvent::Eof).is_none());
    assert_eq!(t.pending_of(4).expect("known fd"), pb);
}

#[test]
fn eof_mid_request_is_cleaned_up() {
    let mut t = ConnTable::new();
    assert!(t.register_accepted(7));
    // a partial header block, then the peer disconnects
    t.deliver_read(7, ReadEvent::Data(b"GET /echo/x HT".to_vec()))
        .expect("known fd");
    let st = t.deliver_read(7, ReadEvent::Eof).expect("known fd");
    assert!(matches!(st, ConnectionStatus::Error));
    let closed = t.cleanup();
    assert_eq!(closed, vec![7u64]);
    assert!(!t.contains(7));
}

#[test]
fn completed_connections_are_cleaned_up_and_others_kept() {
    let mut t = ConnTable::new();
    assert!(t.register_accepted(10));
    assert!(t.register_accepted(11));
    t.deliver_read(10, ReadEvent::Data(ECHO_REQUEST.to_vec())).expect("known fd");
    t.deliver_write(10, WriteEvent::Wrote(ECHO_RESPONSE.len())).expect("known fd");
    let st = t.deliver_flush(10, true).expect("known fd");
    assert!(matches!(st, ConnectionStatus::Complete));
    let closed = t.cleanup();
    assert_eq!(closed, vec![10u64]);
    assert!(!t.contains(10));
    assert!(t.contains(11));
}

#[test]
fn malformed_json_gets_its_error_response_and_the_connection_closes() {
    let mut t = ConnTable::new();
    assert!(t.register_accepted(5));
    let raw: &[u8] =
        b"POST /json HTTP/1.1\r\nContent-Type: application/json\r\nContent-Length: 8\r\n\r\nnot-json";
    t.deliver_read(5, ReadEvent::Data(raw.to_vec())).expect("known fd");
    let pending = t.pending_of(5).expect("known fd");
    assert_eq!(pending, b"HTTP/1.1 400 Bad Request\r\n\r\n".to_vec());
    t.deliver_write(5, WriteEvent::Wrote(pending.len())).expect("known fd");
    let st = t.deliver_flush(5, true).expect("known fd");
    assert!(matches!(st, ConnectionStatus::Complete));
    assert_eq!(t.cleanup(), vec![5u64]);
    assert!(!t.contains(5));
}

#[test]
fn oversized_unterminated_requests_are_refused() {
    let mut c = Conn::new();
    // far beyond the buffering cap, never a terminator
    let chunk = vec![b'a'; 16384];
    for _ in 0..5 {
        let (c2, _) = c.on_read_event(ReadEvent::Data(chunk.clone()));
        c = c2;
    }
    assert!(matches!(c.interest(), Interest::Write));
    assert_eq!(c.pending(), b"HTTP/1.1 400 Bad Request\r\n\r\n".to_vec());
}
