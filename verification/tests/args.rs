use chain_proxy::args::{Listener, ListenerError, ListenerKind};

fn listener(kind: ListenerKind, addr: &str, chain: &str) -> Listener {
    Listener { kind, addr: addr.to_string(), chain: chain.to_string() }
}

#[test]
fn chain_alone_takes_the_defaults() {
    assert_eq!(
        Listener::parse("chain=default"),
        Ok(listener(ListenerKind::HTTP, "0.0.0.0:8080", "default"))
    );
    assert_eq!(
        Listener::parse("c=default"),
        Ok(listener(ListenerKind::HTTP, "0.0.0.0:8080", "default"))
    );
}

#[test]
fn all_parameters() {
    assert_eq!(
        Listener::parse("kind=tls,addr=127.0.0.1:8443,chain=secure"),
        Ok(listener(ListenerKind::TLS, "127.0.0.1:8443", "secure"))
    );
    assert_eq!(
        Listener::parse("k=mc,a=[::]:25565,c=games"),
        Ok(listener(ListenerKind::MC, "[::]:25565", "games"))
    );
}

#[test]
fn white_space_and_empty_parameters_are_passed_over() {
    assert_eq!(
        Listener::parse("  kind = TLS ,, addr =\t127.0.0.1:1 , chain = a b ,  ,"),
        Ok(listener(ListenerKind::TLS, "127.0.0.1:1", "a b"))
    );
    assert_eq!(
        Listener::parse("\u{a0}chain\u{2003}=\u{3000}x\u{a0}"),
        Ok(listener(ListenerKind::HTTP, "0.0.0.0:8080", "x"))
    );
}

#[test]
fn later_parameter_overrides_earlier() {
    assert_eq!(
        Listener::parse("chain=a,kind=tls,chain=b,kind=mc,addr=x,a=y"),
        Ok(listener(ListenerKind::MC, "y", "b"))
    );
}

#[test]
fn value_may_hold_an_equals_sign() {
    assert_eq!(
        Listener::parse("chain=a=b"),
        Ok(listener(ListenerKind::HTTP, "0.0.0.0:8080", "a=b"))
    );
    assert_eq!(
        Listener::parse("chain="),
        Ok(listener(ListenerKind::HTTP, "0.0.0.0:8080", ""))
    );
}

#[test]
fn kind_is_read_in_any_case() {
    for (text, kind) in [
        ("http", ListenerKind::HTTP),
        ("HTTP", ListenerKind::HTTP),
        ("Http", ListenerKind::HTTP),
        ("tls", ListenerKind::TLS),
        ("TLS", ListenerKind::TLS),
        ("mc", ListenerKind::MC),
        ("Mc", ListenerKind::MC),
    ] {
        assert_eq!(ListenerKind::parse(text), Some(kind));
    }
    assert_eq!(ListenerKind::parse("https"), None);
    assert_eq!(ListenerKind::parse(""), None);
    assert_eq!(ListenerKind::parse(" http"), None);
    assert_eq!(ListenerKind::from_lowercase("http"), Some(ListenerKind::HTTP));
    assert_eq!(ListenerKind::from_lowercase("tls"), Some(ListenerKind::TLS));
    assert_eq!(ListenerKind::from_lowercase("mc"), Some(ListenerKind::MC));
    assert_eq!(ListenerKind::from_lowercase("HTTP"), None);
}

#[test]
fn missing_chain_is_an_error() {
    assert_eq!(Listener::parse(""), Err(ListenerError::MissingChain));
    assert_eq!(Listener::parse("kind=http,addr=0.0.0.0:80"), Err(ListenerError::MissingChain));
    assert_eq!(Listener::parse(" , ,"), Err(ListenerError::MissingChain));
}

#[test]
fn unknown_key_is_an_error() {
    assert_eq!(
        Listener::parse("chain=a,port=80"),
        Err(ListenerError::UnknownKey { key: "port".to_string() })
    );
    assert_eq!(
        Listener::parse("Chain=a"),
        Err(ListenerError::UnknownKey { key: "Chain".to_string() })
    );
    assert_eq!(
        Listener::parse("=a"),
        Err(ListenerError::UnknownKey { key: "".to_string() })
    );
}

#[test]
fn parameter_without_value_is_an_error() {
    assert_eq!(
        Listener::parse("chain=a, tls "),
        Err(ListenerError::NoValue { param: "tls".to_string() })
    );
}

#[test]
fn unknown_kind_is_an_error() {
    assert_eq!(
        Listener::parse("chain=a,k= Quic "),
        Err(ListenerError::UnknownKind { key: "k".to_string(), value: "Quic".to_string() })
    );
}

#[test]
fn first_error_decides() {
    assert_eq!(
        Listener::parse("kind=x,y,z=1"),
        Err(ListenerError::UnknownKind { key: "kind".to_string(), value: "x".to_string() })
    );
    assert_eq!(
        Listener::parse("y,kind=x"),
        Err(ListenerError::NoValue { param: "y".to_string() })
    );
}
