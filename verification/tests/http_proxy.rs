use chain_proxy::http_proxy::{destination, sniff, HttpError, MAX_HEAD_LEN};
use chain_proxy::sniff::Sniffed;

fn ready(request: &[u8]) -> (String, u16, String, Vec<u8>) {
    match sniff(request) {
        Sniffed::Ready { context, prefix } => (context.host, context.port, context.address, prefix),
        other => panic!("unexpected answer {:?}", other),
    }
}

#[test]
fn host_header_names_the_destination() {
    let request = b"GET /x HTTP/1.1\r\nHost: 127.0.0.1:9000\r\n\r\n";
    let (host, port, address, prefix) = ready(request);
    assert_eq!(host, "127.0.0.1");
    assert_eq!(port, 9000);
    assert_eq!(address, "127.0.0.1:9000");
    assert_eq!(prefix, request.to_vec());
}

#[test]
fn port_defaults_to_80() {
    let request = b"GET / HTTP/1.1\r\nAccept: */*\r\nHost: example.org\r\n\r\n";
    let (host, port, address, _) = ready(request);
    assert_eq!(host, "example.org");
    assert_eq!(port, 80);
    assert_eq!(address, "example.org:80");
}

#[test]
fn header_name_is_found_in_any_case() {
    for name in ["host", "HOST", "hOsT", "Host"] {
        let request = format!("POST /a?b=c HTTP/1.0\r\n{}:\t example.org:8080 \t\r\n\r\n", name);
        let (host, port, _, prefix) = ready(request.as_bytes());
        assert_eq!(host, "example.org");
        assert_eq!(port, 8080);
        assert_eq!(prefix, request.as_bytes().to_vec());
    }
}

#[test]
fn first_host_header_decides() {
    let request = b"GET / HTTP/1.1\r\nHost: first.example\r\nHost: second.example\r\n\r\n";
    let (host, _, _, _) = ready(request);
    assert_eq!(host, "first.example");
}

#[test]
fn what_was_read_beyond_the_head_is_forwarded_too() {
    let request = b"POST / HTTP/1.1\r\nHost: example.org\r\nContent-Length: 2\r\n\r\nhi";
    let (_, _, _, prefix) = ready(request);
    assert_eq!(prefix, request.to_vec());
}

#[test]
fn request_without_host_is_refused() {
    assert_eq!(
        sniff(b"GET / HTTP/1.1\r\n\r\n"),
        Sniffed::Rejected { error: HttpError::NoHost }
    );
    assert_eq!(
        sniff(b"GET / HTTP/1.1\r\nX-Host: a\r\nHosts: b\r\n\r\n"),
        Sniffed::Rejected { error: HttpError::NoHost }
    );
}

#[test]
fn incomplete_head_asks_for_more() {
    assert_eq!(sniff(b""), Sniffed::Need { missing: 1 });
    assert_eq!(sniff(b"GET / HTTP/1.1\r\nHost: a\r\n"), Sniffed::Need { missing: 1 });
    assert_eq!(sniff(b"GET / HTTP/1.1\r\nHost: a\r\n\r"), Sniffed::Need { missing: 1 });
}

#[test]
fn malformed_request_line_is_refused() {
    for line in [
        "",
        "GET",
        "GET /",
        "GET  / HTTP/1.1",
        " GET / HTTP/1.1",
        "GET / HTTP/2.0",
        "GET / HTTP/1.2",
        "GET / HTTP/1.1 ",
        "GET / http/1.1",
        "GET /a b HTTP/1.1",
        "G\tT / HTTP/1.1",
    ] {
        let request = format!("{}\r\nHost: example.org\r\n\r\n", line);
        assert_eq!(
            sniff(request.as_bytes()),
            Sniffed::Rejected { error: HttpError::BadRequestLine },
            "{:?}",
            line
        );
    }
}

#[test]
fn malformed_header_is_refused() {
    assert_eq!(
        sniff(b"GET / HTTP/1.1\r\nno colon here\r\nHost: a\r\n\r\n"),
        Sniffed::Rejected { error: HttpError::BadHeader }
    );
    assert_eq!(
        sniff(b"GET / HTTP/1.1\r\n: value\r\nHost: a\r\n\r\n"),
        Sniffed::Rejected { error: HttpError::BadHeader }
    );
    assert_eq!(
        sniff(b"GET / HTTP/1.1\r\nbad name: value\r\nHost: a\r\n\r\n"),
        Sniffed::Rejected { error: HttpError::BadHeader }
    );
}

#[test]
fn header_after_the_host_header_is_not_looked_at() {
    let request = b"GET / HTTP/1.1\r\nHost: a.example\r\nno colon here\r\n\r\n";
    let (host, _, _, _) = ready(request);
    assert_eq!(host, "a.example");
}

#[test]
fn host_that_is_no_authority_is_refused() {
    for value in ["", "a b", "a:1:2", "ex ample.org", "user@", "[::1"] {
        let request = format!("GET / HTTP/1.1\r\nHost: {}\r\n\r\n", value);
        assert_eq!(
            sniff(request.as_bytes()),
            Sniffed::Rejected { error: HttpError::BadHost },
            "{:?}",
            value
        );
    }
    assert_eq!(
        sniff(b"GET / HTTP/1.1\r\nHost: \xff\xfe\r\n\r\n"),
        Sniffed::Rejected { error: HttpError::BadHost }
    );
}

#[test]
fn port_that_is_no_number_counts_as_none() {
    for value in ["a.example:b", "a.example:99999", "a.example:"] {
        let request = format!("GET / HTTP/1.1\r\nHost: {}\r\n\r\n", value);
        let (host, port, address, _) = ready(request.as_bytes());
        assert_eq!(host, "a.example");
        assert_eq!(port, 80);
        assert_eq!(address, "a.example:80");
    }
}

#[test]
fn user_info_is_no_part_of_the_host() {
    let request = b"GET / HTTP/1.1\r\nHost: user:secret@a.example:81\r\n\r\n";
    let (host, port, _, _) = ready(request);
    assert_eq!(host, "a.example");
    assert_eq!(port, 81);
}

#[test]
fn bracketed_address_is_a_host() {
    let request = b"GET / HTTP/1.1\r\nHost: [::1]:8080\r\n\r\n";
    let (host, port, address, _) = ready(request);
    assert_eq!(host, "[::1]");
    assert_eq!(port, 8080);
    assert_eq!(address, "[::1]:8080");
}

#[test]
fn head_longer_than_the_bound_is_refused() {
    let mut request = b"GET / HTTP/1.1\r\nX-Pad: ".to_vec();
    while request.len() < MAX_HEAD_LEN {
        request.push(b'a');
    }
    assert_eq!(
        sniff(&request[..MAX_HEAD_LEN - 1]),
        Sniffed::Need { missing: 1 }
    );
    assert_eq!(
        sniff(&request),
        Sniffed::Rejected { error: HttpError::HeadTooLong }
    );
    request.extend_from_slice(b"\r\nHost: a\r\n\r\n");
    assert_eq!(
        sniff(&request),
        Sniffed::Rejected { error: HttpError::HeadTooLong }
    );
}

#[test]
fn head_that_just_fits_is_read() {
    let tail = b"\r\nHost: a.example\r\n\r\n";
    let mut request = b"GET / HTTP/1.1\r\nX-Pad: ".to_vec();
    while request.len() + tail.len() < MAX_HEAD_LEN {
        request.push(b'a');
    }
    request.extend_from_slice(tail);
    assert_eq!(request.len(), MAX_HEAD_LEN);
    let (host, _, _, _) = ready(&request);
    assert_eq!(host, "a.example");
}

#[test]
fn destination_of_an_authority() {
    match destination(Some(("example.org".to_string(), None)), vec![1, 2]) {
        Sniffed::Ready { context, prefix } => {
            assert_eq!(context.address, "example.org:80");
            assert_eq!(prefix, vec![1, 2]);
        }
        other => panic!("unexpected answer {:?}", other),
    }
    match destination(Some(("example.org".to_string(), Some(65535))), vec![]) {
        Sniffed::Ready { context, .. } => {
            assert_eq!(context.port, 65535);
            assert_eq!(context.address, "example.org:65535");
        }
        other => panic!("unexpected answer {:?}", other),
    }
    assert_eq!(
        destination(None, vec![1]),
        Sniffed::Rejected { error: HttpError::BadHost }
    );
}
