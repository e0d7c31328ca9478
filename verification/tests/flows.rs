use httpflow::http::ParseError;
use httpflow::stream::{Endpoint, EnrichedPacket, HttpStream, IpAddress, Store};
use httpflow::Args;

fn ep(host: u32, port: u16) -> Endpoint {
    Endpoint {
        address: IpAddress::V4(host),
        port,
    }
}

fn pkt(source: Endpoint, dest: Endpoint, payload: &str, fin: bool) -> EnrichedPacket {
    EnrichedPacket {
        ts: 0,
        payload: payload.as_bytes().to_vec(),
        source,
        dest,
        fin,
    }
}

#[test]
fn correlate_is_direction_agnostic() {
    let mut store = Store::new();
    let a = ep(1, 1000);
    let b = ep(2, 80);
    let id0 = store.correlate(&a, &b);
    let id1 = store.correlate(&b, &a);
    assert_eq!(id0, id1);
    assert_eq!(store.streams.len(), 1);
}

#[test]
fn correlate_assigns_increasing_ids() {
    let mut store = Store::new();
    let id0 = store.correlate(&ep(1, 1), &ep(2, 2));
    let id1 = store.correlate(&ep(3, 3), &ep(4, 4));
    let id2 = store.correlate(&ep(1, 1), &ep(2, 2));
    assert_eq!(id0, 0);
    assert_eq!(id1, 1);
    assert_eq!(id2, 0);
}

#[test]
fn ipv6_endpoints_correlate() {
    let mut store = Store::new();
    let a = Endpoint {
        address: IpAddress::V6(77),
        port: 5,
    };
    let b = Endpoint {
        address: IpAddress::V6(88),
        port: 6,
    };
    let id0 = store.correlate(&a, &b);
    assert_eq!(store.correlate(&b, &a), id0);
}

#[test]
fn get_next_id_is_monotonic() {
    let mut store = Store::new();
    assert_eq!(store.get_next_id(), 0);
    assert_eq!(store.get_next_id(), 1);
    assert_eq!(store.get_next_id(), 2);
}

#[test]
fn lookup_unknown_pair_is_none() {
    let store = Store::new();
    assert!(store.lookup_stream_id(&ep(1, 1), &ep(2, 2)).is_none());
}

#[test]
fn append_packet_without_flow_is_none() {
    let mut store = Store::new();
    assert!(store.append_packet(pkt(ep(1, 1), ep(2, 2), "x", false)).is_none());
}

#[test]
fn completion_requires_both_sides() {
    let a = ep(1, 1000);
    let b = ep(2, 80);
    let mut stream = HttpStream::new(0, a, b);
    stream.append_request_packet(pkt(a, b, "GET / HTTP/1.1\r\n\r\n", true));
    assert!(!stream.is_complete());
    stream.append_response_packet(pkt(b, a, "HTTP/1.1 ", false));
    stream.append_response_packet(pkt(b, a, "200 OK", false));
    assert!(!stream.is_complete());
    stream.append_response_packet(pkt(b, a, "\r\n\r\n", true));
    assert!(stream.is_complete());
}

#[test]
fn completion_requires_both_sides_reverse_order() {
    let a = ep(1, 1000);
    let b = ep(2, 80);
    let mut stream = HttpStream::new(0, a, b);
    stream.append_response_packet(pkt(b, a, "", true));
    assert!(!stream.is_complete());
    stream.append_request_packet(pkt(a, b, "", false));
    assert!(!stream.is_complete());
    stream.append_request_packet(pkt(a, b, "", true));
    assert!(stream.is_complete());
}

#[test]
fn append_packet_routes_by_direction() {
    let a = ep(1, 1000);
    let b = ep(2, 80);
    let mut store = Store::new();
    let id = store.correlate(&a, &b);
    let (id1, complete1) = store.append_packet(pkt(a, b, "GET ", false)).unwrap();
    assert_eq!(id1, id);
    assert!(!complete1);
    let (_, complete2) = store.append_packet(pkt(a, b, "/ HTTP/1.1\r\n\r\n", true)).unwrap();
    assert!(!complete2);
    let (id3, complete3) = store
        .append_packet(pkt(b, a, "HTTP/1.1 200 OK\r\n\r\n", true))
        .unwrap();
    assert_eq!(id3, id);
    assert!(complete3);
    let stream = &store.streams[0];
    assert_eq!(stream.collect_request(), b"GET / HTTP/1.1\r\n\r\n".to_vec());
    assert_eq!(stream.collect_response(), b"HTTP/1.1 200 OK\r\n\r\n".to_vec());
}

#[test]
fn collect_keeps_arrival_order_per_direction() {
    let a = ep(1, 1);
    let b = ep(2, 2);
    let mut stream = HttpStream::new(0, a, b);
    stream.append_request_packet(pkt(a, b, "ab", false));
    stream.append_response_packet(pkt(b, a, "12", false));
    stream.append_request_packet(pkt(a, b, "cd", false));
    stream.append_response_packet(pkt(b, a, "34", false));
    assert_eq!(stream.collect_request(), b"abcd".to_vec());
    assert_eq!(stream.collect_response(), b"1234".to_vec());
}

#[test]
fn stream_parse_end_to_end() {
    let a = ep(1, 1000);
    let b = ep(2, 80);
    let mut stream = HttpStream::new(0, a, b);
    stream.append_request_packet(pkt(a, b, "GET /x HTTP/1.1\r\nHo", false));
    stream.append_request_packet(pkt(a, b, "st: h\r\n\r\n", true));
    stream.append_response_packet(pkt(b, a, "HTTP/1.1 200 OK\r\nContent-", false));
    stream.append_response_packet(pkt(b, a, "Length: 2\r\n\r\nhi", true));
    assert!(stream.is_complete());
    stream.parse().unwrap();
    let req = stream.request.as_ref().unwrap();
    assert_eq!(req.method, "GET");
    assert_eq!(req.path, "/x");
    assert_eq!(req.headers[0].name, "Host");
    assert_eq!(req.headers[0].value, "h");
    let resp = stream.response.as_ref().unwrap();
    assert_eq!(resp.code, 200);
    assert_eq!(resp.body.as_deref(), Some("hi"));
}

#[test]
fn stream_parse_request_error_leaves_slots_empty() {
    let a = ep(1, 1000);
    let b = ep(2, 80);
    let mut stream = HttpStream::new(0, a, b);
    stream.append_request_packet(pkt(a, b, "GET /x HTTP/1.1\r\n", true));
    stream.append_response_packet(pkt(b, a, "HTTP/1.1 200 OK\r\n\r\n", true));
    match stream.parse() {
        Err(ParseError::Truncated) => {}
        other => panic!("expected Truncated, got {:?}", other),
    }
    assert!(stream.request.is_none());
    assert!(stream.response.is_none());
}

#[test]
fn stream_parse_response_error_keeps_request() {
    let a = ep(1, 1000);
    let b = ep(2, 80);
    let mut stream = HttpStream::new(0, a, b);
    stream.append_request_packet(pkt(a, b, "GET /x HTTP/1.1\r\n\r\n", true));
    stream.append_response_packet(pkt(b, a, "HTTP/1.1 200", true));
    match stream.parse() {
        Err(ParseError::Truncated) => {}
        other => panic!("expected Truncated, got {:?}", other),
    }
    assert!(stream.request.is_some());
    assert!(stream.response.is_none());
}

#[test]
fn matching_without_filter_needs_only_a_request() {
    let a = ep(1, 1000);
    let b = ep(2, 80);
    let mut stream = HttpStream::new(0, a, b);
    let no_filter = Args { path: None };
    assert!(!stream.is_matching(&no_filter));
    stream.append_request_packet(pkt(a, b, "GET /foo/bar HTTP/1.1\r\n\r\n", true));
    stream.append_response_packet(pkt(b, a, "HTTP/1.1 200 OK\r\n\r\n", true));
    stream.parse().unwrap();
    assert!(stream.is_matching(&no_filter));
}

#[test]
fn matching_filters_by_path_substring() {
    let a = ep(1, 1000);
    let b = ep(2, 80);
    let mut stream = HttpStream::new(0, a, b);
    stream.append_request_packet(pkt(a, b, "GET /foo/bar HTTP/1.1\r\n\r\n", true));
    stream.append_response_packet(pkt(b, a, "HTTP/1.1 200 OK\r\n\r\n", true));
    stream.parse().unwrap();
    assert!(stream.is_matching(&Args {
        path: Some("foo".to_string())
    }));
    assert!(stream.is_matching(&Args {
        path: Some("/foo/bar".to_string())
    }));
    assert!(!stream.is_matching(&Args {
        path: Some("zzz".to_string())
    }));
}
