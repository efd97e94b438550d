use chain_proxy::sniff::Sniffed;
use chain_proxy::tls_proxy::{client_hello_host, sniff, validate, TlsError};

fn be16(value: usize) -> [u8; 2] {
    [(value >> 8) as u8, (value & 0xff) as u8]
}

fn extension(kind: u16, body: &[u8]) -> Vec<u8> {
    let mut out = Vec::new();
    out.extend_from_slice(&be16(kind as usize));
    out.extend_from_slice(&be16(body.len()));
    out.extend_from_slice(body);
    out
}

fn name_entry(kind: u8, name: &[u8]) -> Vec<u8> {
    let mut out = vec![kind];
    out.extend_from_slice(&be16(name.len()));
    out.extend_from_slice(name);
    out
}

fn server_name(entries: &[u8]) -> Vec<u8> {
    let mut body = Vec::new();
    body.extend_from_slice(&be16(entries.len()));
    body.extend_from_slice(entries);
    extension(0, &body)
}

fn hello_body(extensions: &[u8]) -> Vec<u8> {
    let mut hello = vec![3, 3];
    hello.extend_from_slice(&[7u8; 32]);
    hello.push(4);
    hello.extend_from_slice(&[1, 2, 3, 4]);
    hello.extend_from_slice(&be16(4));
    hello.extend_from_slice(&[0x13, 0x01, 0x13, 0x02]);
    hello.push(1);
    hello.push(0);
    hello.extend_from_slice(&be16(extensions.len()));
    hello.extend_from_slice(extensions);
    let mut body = vec![1, 0];
    body.extend_from_slice(&be16(hello.len()));
    body.extend_from_slice(&hello);
    body
}

fn record(body: &[u8]) -> Vec<u8> {
    let mut out = vec![22, 3, 1];
    out.extend_from_slice(&be16(body.len()));
    out.extend_from_slice(body);
    out
}

fn hello_for(host: &str) -> Vec<u8> {
    let mut extensions = extension(0x000a, &[0, 2, 0, 0x1d]);
    extensions.extend_from_slice(&server_name(&name_entry(0, host.as_bytes())));
    extensions.extend_from_slice(&extension(0x0010, &[0, 3, 2, b'h', b'2']));
    record(&hello_body(&extensions))
}

#[test]
fn sniff_finds_the_server_name() {
    let bytes = hello_for("foo.example.com");
    match sniff(&bytes) {
        Sniffed::Ready { context, prefix } => {
            assert_eq!(context.host, "foo.example.com");
            assert_eq!(context.port, 443);
            assert_eq!(context.address, "foo.example.com:443");
            assert_eq!(prefix, bytes);
        }
        other => panic!("unexpected answer {:?}", other),
    }
}

#[test]
fn sniff_forwards_the_record_and_no_more() {
    let mut bytes = hello_for("foo.example.com");
    let record_len = bytes.len();
    bytes.extend_from_slice(&[20, 3, 3, 0, 1, 1]);
    match sniff(&bytes) {
        Sniffed::Ready { prefix, .. } => assert_eq!(prefix, bytes[..record_len].to_vec()),
        other => panic!("unexpected answer {:?}", other),
    }
}

#[test]
fn sniff_asks_for_the_header_then_for_the_record() {
    let bytes = hello_for("foo.example.com");
    assert_eq!(sniff(&[]), Sniffed::Need { missing: 1 });
    assert_eq!(sniff(&bytes[..1]), Sniffed::Need { missing: 4 });
    assert_eq!(sniff(&bytes[..3]), Sniffed::Need { missing: 2 });
    assert_eq!(sniff(&bytes[..5]), Sniffed::Need { missing: bytes.len() - 5 });
    assert_eq!(sniff(&bytes[..bytes.len() - 1]), Sniffed::Need { missing: 1 });
}

#[test]
fn sniff_rejects_another_content_type_on_the_first_byte() {
    assert_eq!(
        sniff(&[23]),
        Sniffed::Rejected {
            error: TlsError::WrongField { field: "content type", expected: 22, actual: 23 }
        }
    );
}

#[test]
fn hello_of_another_handshake_type_is_rejected() {
    let mut body = hello_body(&server_name(&name_entry(0, b"a.example")));
    body[0] = 2;
    assert_eq!(
        client_hello_host(&body),
        Err(TlsError::WrongField { field: "handshake type", expected: 1, actual: 2 })
    );
}

#[test]
fn hello_whose_length_differs_from_the_record_is_rejected() {
    let mut body = hello_body(&server_name(&name_entry(0, b"a.example")));
    let claimed = (body[2] as u32) * 256 + body[3] as u32;
    body.push(0);
    assert_eq!(
        client_hello_host(&body),
        Err(TlsError::WrongField {
            field: "handshake message length",
            expected: claimed + 1,
            actual: claimed,
        })
    );
}

#[test]
fn hello_without_extensions_is_truncated_or_nameless() {
    assert_eq!(client_hello_host(&hello_body(&[])), Err(TlsError::NoServerName));
    assert_eq!(client_hello_host(&[]), Err(TlsError::Truncated));
    assert_eq!(client_hello_host(&[1, 0, 0]), Err(TlsError::Truncated));
    assert_eq!(client_hello_host(&[1, 0, 0, 2, 3, 3]), Err(TlsError::Truncated));
}

#[test]
fn hello_without_server_name_is_rejected() {
    let extensions = extension(0x000a, &[0, 2, 0, 0x1d]);
    assert_eq!(
        client_hello_host(&hello_body(&extensions)),
        Err(TlsError::NoServerName)
    );
}

#[test]
fn empty_server_name_list_is_passed_over() {
    let mut extensions = server_name(&[]);
    extensions.extend_from_slice(&extension(0x0017, &[]));
    extensions.extend_from_slice(&server_name(&name_entry(0, b"later.example")));
    assert_eq!(
        client_hello_host(&hello_body(&extensions)),
        Ok("later.example".to_string())
    );
    assert_eq!(
        client_hello_host(&hello_body(&server_name(&[]))),
        Err(TlsError::NoServerName)
    );
}

#[test]
fn names_of_other_types_are_passed_over() {
    let mut entries = name_entry(1, b"xyz");
    entries.extend_from_slice(&name_entry(0, b"host.example"));
    assert_eq!(
        client_hello_host(&hello_body(&server_name(&entries))),
        Ok("host.example".to_string())
    );
    assert_eq!(
        client_hello_host(&hello_body(&server_name(&name_entry(1, b"xyz")))),
        Err(TlsError::NoServerName)
    );
}

#[test]
fn list_length_has_to_fill_the_extension() {
    let mut body = Vec::new();
    body.extend_from_slice(&be16(5));
    body.extend_from_slice(&name_entry(0, b"ab"));
    body.push(0);
    assert_eq!(
        client_hello_host(&hello_body(&extension(0, &body))),
        Err(TlsError::WrongField {
            field: "extension server_name list length",
            expected: 6,
            actual: 5,
        })
    );
}

#[test]
fn host_name_has_to_end_the_list() {
    let mut entries = name_entry(0, b"ab");
    entries.push(9);
    assert_eq!(
        client_hello_host(&hello_body(&server_name(&entries))),
        Err(TlsError::WrongField {
            field: "extension server_name server name length",
            expected: 3,
            actual: 2,
        })
    );
}

#[test]
fn host_name_has_to_be_utf8() {
    assert_eq!(
        client_hello_host(&hello_body(&server_name(&name_entry(0, &[0xff, 0xfe])))),
        Err(TlsError::NotUtf8)
    );
}

#[test]
fn extension_longer_than_the_block_is_truncated() {
    let mut extensions = extension(0x000a, &[1, 2, 3]);
    let last = extensions.len() - 1;
    extensions.truncate(last);
    assert_eq!(
        client_hello_host(&hello_body(&extensions)),
        Err(TlsError::Truncated)
    );
}

#[test]
fn tls_validate_compares() {
    assert_eq!(validate(22, 22, "content type"), Ok(()));
    assert_eq!(
        validate(22, 21, "content type"),
        Err(TlsError::WrongField { field: "content type", expected: 22, actual: 21 })
    );
}
