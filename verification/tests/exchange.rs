use http_exchange::client::{Client, MAX_HEADERS};
use http_exchange::error::HttpError;
use http_exchange::head::Head;
use http_exchange::header::Header;
use http_exchange::response::Response;
use http_exchange::transport::Transport;
use std::cell::RefCell;
use std::collections::VecDeque;
use std::rc::Rc;

/// What a peer has seen and what it still has to say.
#[derive(Default)]
struct Log {
    taken: Vec<u8>,
    writes: usize,
    reads: usize,
    taken_at_first_read: Option<usize>,
    incoming: VecDeque<u8>,
}

/// How a peer is to behave.
#[derive(Clone, Default)]
struct Plan {
    log: Rc<RefCell<Log>>,
    refuse: Option<u32>,
    fail_write: Option<u32>,
    fail_read: Option<u32>,
    closed: bool,
}

/// A peer that records what it is sent and answers with what was laid out
/// for it.
struct Peer {
    plan: Plan,
}

impl Transport for Peer {
    type Address = Plan;
    type Error = u32;

    fn connect(addr: Plan) -> Result<Peer, u32> {
        match addr.refuse {
            Some(code) => Err(code),
            None => Ok(Peer { plan: addr }),
        }
    }

    fn read(&mut self, buf: &mut [u8]) -> Result<usize, u32> {
        if let Some(code) = self.plan.fail_read {
            return Err(code);
        }
        let mut log = self.plan.log.borrow_mut();
        log.reads += 1;
        if log.taken_at_first_read.is_none() {
            log.taken_at_first_read = Some(log.taken.len());
        }
        let count = buf.len().min(log.incoming.len());
        for slot in buf.iter_mut().take(count) {
            *slot = log.incoming.pop_front().unwrap();
        }
        Ok(count)
    }

    fn write(&mut self, buf: &[u8]) -> Result<usize, u32> {
        if let Some(code) = self.plan.fail_write {
            return Err(code);
        }
        if self.plan.closed {
            return Ok(0);
        }
        let mut log = self.plan.log.borrow_mut();
        log.writes += 1;
        log.taken.extend_from_slice(buf);
        Ok(buf.len())
    }
}

fn answering(response: &[u8]) -> (Client<Peer>, Rc<RefCell<Log>>) {
    let plan = Plan::default();
    plan.log.borrow_mut().incoming.extend(response.iter().copied());
    let log = plan.log.clone();
    match Client::connect(plan) {
        Ok(client) => (client, log),
        Err(_) => panic!("the peer was told to accept"),
    }
}

fn header<'a>(name: &'a str, value: &'a [u8]) -> Header<'a> {
    Header { name, value }
}

#[test]
fn header_capacity_is_thirty() {
    assert_eq!(MAX_HEADERS, 30);
}

#[test]
fn connect_passes_the_transport_error_on() {
    let plan = Plan { refuse: Some(17), ..Plan::default() };
    assert!(matches!(Client::<Peer>::connect(plan), Err(HttpError::Transport(17))));
}

#[test]
fn over_makes_a_client_or_passes_the_error_on() {
    assert!(matches!(Client::<Peer>::over(Err(3)), Err(HttpError::Transport(3))));
    assert!(Client::over(Ok(Peer { plan: Plan::default() })).is_ok());
}

#[test]
fn request_without_headers_or_body_on_the_wire() {
    let (mut client, log) = answering(b"HTTP/1.1 200 OK\r\n\r\n");
    assert!(client.request("GET", "/", &[], None).is_ok());
    assert_eq!(log.borrow().taken, b"GET / HTTP/1.1\r\nContent-Length:0\r\n\r\n".to_vec());
    assert_eq!(log.borrow().writes, 1);
}

#[test]
fn request_with_headers_and_body_on_the_wire() {
    let (mut client, log) = answering(b"HTTP/1.1 200 OK\r\n\r\n");
    let headers = [header("Host", b"example.com"), header("X-Trace", b"a b")];
    assert!(client.request("POST", "/submit", &headers, Some(b"hello")).is_ok());
    let mut expected = b"POST /submit HTTP/1.1\r\n".to_vec();
    expected.extend_from_slice(b"Host:example.com\r\n");
    expected.extend_from_slice(b"X-Trace:a b\r\n");
    expected.extend_from_slice(b"Content-Length:5\r\n");
    expected.extend_from_slice(b"\r\n");
    expected.extend_from_slice(b"\r\nhello");
    assert_eq!(log.borrow().taken, expected);
}

#[test]
fn empty_body_still_gets_its_blank_line() {
    let (mut client, log) = answering(b"HTTP/1.1 200 OK\r\n\r\n");
    assert!(client.request("PUT", "/x", &[], Some(b"")).is_ok());
    assert_eq!(log.borrow().taken, b"PUT /x HTTP/1.1\r\nContent-Length:0\r\n\r\n\r\n".to_vec());
}

#[test]
fn content_length_is_added_beside_the_callers_own() {
    let (mut client, log) = answering(b"HTTP/1.1 200 OK\r\n\r\n");
    let headers = [header("Content-Length", b"99")];
    assert!(client.request("POST", "/", &headers, Some(b"abc")).is_ok());
    assert_eq!(
        log.borrow().taken,
        b"POST / HTTP/1.1\r\nContent-Length:99\r\nContent-Length:3\r\n\r\n\r\nabc".to_vec()
    );
}

#[test]
fn content_length_counts_the_bytes_of_the_body() {
    for len in [0usize, 1, 9, 10, 255, 1023, 1024, 1025, 5000] {
        let (mut client, log) = answering(b"HTTP/1.1 200 OK\r\n\r\n");
        let body = vec![b'z'; len];
        assert!(client.request("POST", "/", &[], Some(&body)).is_ok());
        let taken = log.borrow().taken.clone();
        let head = format!("POST / HTTP/1.1\r\nContent-Length:{}\r\n\r\n\r\n", len).into_bytes();
        assert_eq!(&taken[..head.len()], &head[..]);
        assert_eq!(&taken[head.len()..], &body[..]);
    }
}

#[test]
fn request_longer_than_the_buffer_arrives_whole() {
    let (mut client, log) = answering(b"HTTP/1.1 200 OK\r\n\r\n");
    let body: Vec<u8> = (0..4000usize).map(|i| (i % 251) as u8).collect();
    let value = vec![b'v'; 1500];
    let headers = [header("X-Long", &value)];
    assert!(client.request("POST", "/big", &headers, Some(&body)).is_ok());
    let mut expected = b"POST /big HTTP/1.1\r\nX-Long:".to_vec();
    expected.extend_from_slice(&value);
    expected.extend_from_slice(b"\r\nContent-Length:4000\r\n\r\n\r\n");
    expected.extend_from_slice(&body);
    assert_eq!(log.borrow().taken, expected);
    assert!(log.borrow().writes >= (expected.len() + 1023) / 1024);
}

#[test]
fn response_gives_status_header_and_body() {
    let wire = b"HTTP/1.1 200 OK\r\nX-A:1\r\n\r\nHELLO";
    let (mut client, _log) = answering(wire);
    let response = match client.request("GET", "/", &[], None) {
        Ok(response) => response,
        Err(_) => panic!("the response is well formed"),
    };
    assert_eq!(response.status_code().as_u16(), 200);
    let headers = response.headers().unwrap();
    assert_eq!(headers.len(), 1);
    assert_eq!(headers[0].name, "X-A");
    assert_eq!(headers[0].value, b"1");
    // 31 bytes came in and the head takes 26 of them: the body is taken
    // from byte 31 - 26 = 5 on.
    assert_eq!(response.body(), &wire[5..]);
    assert_eq!(response.body().len(), 26);
}

#[test]
fn body_is_the_sent_body_where_it_is_as_long_as_the_head() {
    let wire = b"HTTP/1.1 200 OK\r\nX-A:1\r\n\r\nabcdefghijklmnopqrstuvwxyz";
    let (mut client, _log) = answering(wire);
    let response = match client.request("GET", "/", &[], None) {
        Ok(response) => response,
        Err(_) => panic!("the response is well formed"),
    };
    assert_eq!(response.status_code().as_u16(), 200);
    assert_eq!(response.body(), b"abcdefghijklmnopqrstuvwxyz");
}

#[test]
fn response_without_headers_reports_none() {
    let (mut client, _log) = answering(b"HTTP/1.1 204 No Content\r\n\r\n");
    let response = match client.request("GET", "/", &[], None) {
        Ok(response) => response,
        Err(_) => panic!("the response is well formed"),
    };
    assert_eq!(response.status_code().as_u16(), 204);
    assert!(response.headers().is_none());
}

#[test]
fn thirty_headers_are_taken() {
    let mut wire = b"HTTP/1.1 200 OK\r\n".to_vec();
    for i in 0..30 {
        wire.extend_from_slice(format!("X-{}:{}\r\n", i, i).as_bytes());
    }
    wire.extend_from_slice(b"\r\n");
    let (mut client, _log) = answering(&wire);
    let response = match client.request("GET", "/", &[], None) {
        Ok(response) => response,
        Err(_) => panic!("thirty headers fit"),
    };
    let headers = response.headers().unwrap();
    assert_eq!(headers.len(), 30);
    assert_eq!(headers[29].name, "X-29");
    assert_eq!(headers[29].value, b"29");
}

#[test]
fn thirty_one_headers_are_a_protocol_error() {
    let mut wire = b"HTTP/1.1 200 OK\r\n".to_vec();
    for i in 0..31 {
        wire.extend_from_slice(format!("X-{}:{}\r\n", i, i).as_bytes());
    }
    wire.extend_from_slice(b"\r\n");
    let (mut client, _log) = answering(&wire);
    assert!(matches!(client.request("GET", "/", &[], None), Err(HttpError::Protocol)));
}

#[test]
fn truncated_head_is_a_protocol_error() {
    let (mut client, log) = answering(b"HTTP/1.1 200 OK\r\nX-A");
    assert!(matches!(client.request("GET", "/", &[], None), Err(HttpError::Protocol)));
    assert_eq!(log.borrow().taken, b"GET / HTTP/1.1\r\nContent-Length:0\r\n\r\n".to_vec());
}

#[test]
fn silent_peer_is_a_protocol_error() {
    let (mut client, _log) = answering(b"");
    assert!(matches!(client.request("GET", "/", &[], None), Err(HttpError::Protocol)));
}

#[test]
fn malformed_head_is_a_protocol_error() {
    let (mut client, _log) = answering(b"HTTP/1.1 OK\r\n\r\n");
    assert!(matches!(client.request("GET", "/", &[], None), Err(HttpError::Protocol)));
}

#[test]
fn closed_stream_is_a_device_error_and_nothing_is_read() {
    let plan = Plan { closed: true, ..Plan::default() };
    let log = plan.log.clone();
    let mut client = match Client::<Peer>::connect(plan) {
        Ok(client) => client,
        Err(_) => panic!("the peer was told to accept"),
    };
    assert!(matches!(client.request("GET", "/", &[], None), Err(HttpError::Device)));
    assert_eq!(log.borrow().reads, 0);
    assert!(log.borrow().taken.is_empty());
}

#[test]
fn write_error_is_passed_on_and_nothing_is_read() {
    let plan = Plan { fail_write: Some(5), ..Plan::default() };
    let log = plan.log.clone();
    let mut client = match Client::<Peer>::connect(plan) {
        Ok(client) => client,
        Err(_) => panic!("the peer was told to accept"),
    };
    assert!(matches!(client.request("GET", "/", &[], None), Err(HttpError::Transport(5))));
    assert_eq!(log.borrow().reads, 0);
}

#[test]
fn all_writes_come_before_the_first_read() {
    let body = vec![b'b'; 3000];
    let (mut client, log) = answering(b"HTTP/1.1 200 OK\r\n\r\n");
    assert!(client.request("POST", "/", &[], Some(&body)).is_ok());
    let log = log.borrow();
    assert_eq!(log.taken_at_first_read, Some(log.taken.len()));
    assert_eq!(log.writes, 3);
}

#[test]
fn read_error_is_passed_on() {
    let plan = Plan { fail_read: Some(6), ..Plan::default() };
    let log = plan.log.clone();
    let mut client = match Client::<Peer>::connect(plan) {
        Ok(client) => client,
        Err(_) => panic!("the peer was told to accept"),
    };
    assert!(matches!(client.request("GET", "/", &[], None), Err(HttpError::Transport(6))));
    assert_eq!(log.borrow().taken, b"GET / HTTP/1.1\r\nContent-Length:0\r\n\r\n".to_vec());
}

#[test]
fn response_longer_than_one_read_is_taken_whole() {
    let mut wire = b"HTTP/1.1 200 OK\r\nX-A:1\r\n\r\n".to_vec();
    wire.extend((0..3000usize).map(|i| (i % 251) as u8));
    let (mut client, log) = answering(&wire);
    let response = match client.request("GET", "/", &[], None) {
        Ok(response) => response,
        Err(_) => panic!("the response is well formed"),
    };
    assert_eq!(response.body(), &wire[3026 - 26..]);
    assert_eq!(log.borrow().reads, 3);
}

#[test]
fn second_response_is_appended_to_the_first() {
    let first = b"HTTP/1.1 201 Created\r\n\r\n";
    let second = b"HTTP/1.1 404 Not Found\r\nX-B:2\r\n\r\nnothing here";
    let (mut client, log) = answering(first);
    match client.request("GET", "/a", &[], None) {
        Ok(response) => {
            assert_eq!(response.status_code().as_u16(), 201);
            // All 24 bytes are head: the body is taken from byte 24 - 24 = 0 on.
            assert_eq!(response.body(), &first[..]);
        },
        Err(_) => panic!("the response is well formed"),
    }
    log.borrow_mut().incoming.extend(second.iter().copied());
    let mut all = first.to_vec();
    all.extend_from_slice(second);
    match client.request("GET", "/b", &[], None) {
        Ok(response) => {
            // The head is parsed from the start of all that was received.
            assert_eq!(response.status_code().as_u16(), 201);
            assert!(response.headers().is_none());
            assert_eq!(response.body(), &all[second.len() - first.len()..]);
        },
        Err(_) => panic!("the first head is shorter than the second response"),
    }
}

#[test]
fn answer_shorter_than_the_first_head_is_a_protocol_error() {
    let first = b"HTTP/1.1 200 OK\r\nX-A:1\r\n\r\n";
    let (mut client, log) = answering(first);
    assert!(client.request("GET", "/a", &[], None).is_ok());
    log.borrow_mut().incoming.extend(b"HTTP/1.1 200 OK\r\n\r\n".iter().copied());
    assert!(matches!(client.request("GET", "/b", &[], None), Err(HttpError::Protocol)));
}

#[test]
fn from_head_needs_a_whole_head_with_a_status() {
    let buf = b"0123456789";
    assert!(Response::from_head(Head::Partial, buf, 10).is_none());
    let no_code = Head::Complete { len: 4, code: None, headers: Vec::new() };
    assert!(Response::from_head(no_code, buf, 10).is_none());
    let too_long = Head::Complete { len: 6, code: Some(200), headers: Vec::new() };
    assert!(Response::from_head(too_long, buf, 5).is_none());
}

#[test]
fn from_head_takes_the_body_from_fresh_less_head() {
    let buf = b"0123456789";
    let head = Head::Complete { len: 4, code: Some(301), headers: vec![header("A", b"b")] };
    let response = Response::from_head(head, buf, 7).unwrap();
    assert_eq!(response.status_code().as_u16(), 301);
    assert_eq!(response.body(), b"3456789");
    let headers = response.headers().unwrap();
    assert_eq!(headers.len(), 1);
    assert_eq!(headers[0].name, "A");
    assert_eq!(headers[0].value, b"b");
    let head = Head::Complete { len: 10, code: Some(200), headers: Vec::new() };
    let response = Response::from_head(head, buf, 10).unwrap();
    assert_eq!(response.body(), buf);
    assert!(response.headers().is_none());
    let head = Head::Complete { len: 0, code: Some(200), headers: Vec::new() };
    let response = Response::from_head(head, buf, 10).unwrap();
    assert_eq!(response.body(), b"");
}
