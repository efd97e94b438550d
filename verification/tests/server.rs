use chain_proxy::args::ListenerKind;
use chain_proxy::chain::{Reason, Route};
use chain_proxy::config::{ChainAction, ChainFilter, ChainRule, Config, DomainPool};
use chain_proxy::http_proxy::HttpError;
use chain_proxy::mc_proxy::{write_port, write_varint, write_varstring};
use chain_proxy::server::{decide, respond, sniff, Action, SniffError};
use chain_proxy::sniff::Sniffed;
use chain_proxy::tls_proxy::TlsError;

fn mc_handshake(host: &str, port: u16) -> Vec<u8> {
    let mut body = Vec::new();
    write_varint(&mut body, 0);
    write_varint(&mut body, 763);
    write_varstring(&mut body, host);
    write_port(&mut body, port);
    write_varint(&mut body, 2);
    let mut packet = Vec::new();
    write_varint(&mut packet, body.len() as u32);
    packet.extend_from_slice(&body);
    packet
}

fn mc_config() -> Config {
    let mut config = Config::default();
    config.stash.domain_pools.insert(
        "mc_allow".to_string(),
        DomainPool::from_hosts(vec!["play.example.net".to_string()]),
    );
    config.chains.insert(
        "mc".to_string(),
        vec![ChainRule {
            filter: ChainFilter::DomainPool { pool: "mc_allow".to_string() },
            action: ChainAction::Socks5Proxy {
                credentials: None,
                address: "127.0.0.1:1080".to_string(),
            },
        }],
    );
    config
}

#[test]
fn each_kind_has_its_sniffer() {
    let request = b"GET / HTTP/1.1\r\nHost: example.org\r\n\r\n";
    match sniff(ListenerKind::HTTP, request) {
        Sniffed::Ready { context, .. } => assert_eq!(context.address, "example.org:80"),
        other => panic!("unexpected answer {:?}", other),
    }
    assert_eq!(
        sniff(ListenerKind::TLS, request),
        Sniffed::Rejected {
            error: SniffError::Tls(TlsError::WrongField {
                field: "content type",
                expected: 22,
                actual: 71,
            })
        }
    );
    match sniff(ListenerKind::MC, &mc_handshake("a.example", 25565)) {
        Sniffed::Ready { context, .. } => assert_eq!(context.address, "a.example:25565"),
        other => panic!("unexpected answer {:?}", other),
    }
    assert_eq!(sniff(ListenerKind::HTTP, b"GET"), Sniffed::Need { missing: 1 });
}

#[test]
fn http_without_host_gets_a_400() {
    let config = Config::default();
    match decide(ListenerKind::HTTP, b"GET / HTTP/1.1\r\n\r\n", &config, "default") {
        Action::Close { error, reply } => {
            assert_eq!(error, SniffError::Http(HttpError::NoHost));
            assert!(reply.starts_with(b"HTTP/1.1 400 "));
            assert!(reply.ends_with(b"\r\n\r\n"));
        }
        _ => panic!("the request was not refused"),
    }
}

#[test]
fn other_kinds_are_closed_without_a_word() {
    assert_eq!(respond(&SniffError::Tls(TlsError::NoServerName)), Vec::<u8>::new());
    let config = Config::default();
    match decide(ListenerKind::TLS, &[21], &config, "default") {
        Action::Close { reply, .. } => assert!(reply.is_empty()),
        _ => panic!("the connection was not closed"),
    }
}

#[test]
fn incomplete_input_asks_to_read() {
    let config = Config::default();
    match decide(ListenerKind::TLS, &[22, 3, 1], &config, "default") {
        Action::Read { missing } => assert_eq!(missing, 2),
        _ => panic!("no read was asked for"),
    }
}

#[test]
fn minecraft_through_socks5_with_the_fml_host_forwarded() {
    let config = mc_config();
    let bytes = mc_handshake("play.example.net\0FML\0", 25565);
    match decide(ListenerKind::MC, &bytes, &config, "mc") {
        Action::Forward { context, upstream, prefix } => {
            assert_eq!(context.host, "play.example.net");
            assert!(
                upstream.route
                    == Route::Socks5 {
                        proxy: "127.0.0.1:1080".to_string(),
                        host: "play.example.net".to_string(),
                        port: 25565,
                        credentials: None,
                    }
            );
            assert_eq!(prefix, bytes);
        }
        _ => panic!("the connection was not forwarded"),
    }
}

#[test]
fn minecraft_outside_the_pool_goes_direct() {
    let config = mc_config();
    let bytes = mc_handshake("play.evil.net", 25565);
    match decide(ListenerKind::MC, &bytes, &config, "mc") {
        Action::Forward { upstream, prefix, .. } => {
            assert!(
                upstream.route
                    == Route::Direct {
                        address: "play.evil.net:25565".to_string(),
                        reason: Reason::NoMatch,
                    }
            );
            assert_eq!(prefix, bytes);
        }
        _ => panic!("the connection was not forwarded"),
    }
}
