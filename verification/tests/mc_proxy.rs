use chain_proxy::chain::Context;
use chain_proxy::mc_proxy::{
    read_port, read_varint, read_varstring, sniff, un_fml_address, validate, write_port,
    write_varint, write_varstring, Handshake, McError, Scan,
};
use chain_proxy::sniff::Sniffed;

fn encoded(value: u32) -> Vec<u8> {
    let mut out = Vec::new();
    write_varint(&mut out, value);
    out
}

fn handshake_bytes(host: &str, port: u16) -> Vec<u8> {
    let mut body = Vec::new();
    write_varint(&mut body, 0);
    write_varint(&mut body, 763);
    write_varstring(&mut body, host);
    write_port(&mut body, port);
    write_varint(&mut body, 2);
    let mut packet = Vec::new();
    write_varint(&mut packet, body.len() as u32);
    packet.extend_from_slice(&body);
    packet
}

#[test]
fn varint_known_encodings() {
    assert_eq!(encoded(0), vec![0x00]);
    assert_eq!(encoded(1), vec![0x01]);
    assert_eq!(encoded(127), vec![0x7f]);
    assert_eq!(encoded(128), vec![0x80, 0x01]);
    assert_eq!(encoded(255), vec![0xff, 0x01]);
    assert_eq!(encoded(300), vec![0xac, 0x02]);
    assert_eq!(encoded(25565), vec![0xdd, 0xc7, 0x01]);
    assert_eq!(encoded(2097151), vec![0xff, 0xff, 0x7f]);
    assert_eq!(encoded(2147483647), vec![0xff, 0xff, 0xff, 0xff, 0x07]);
    assert_eq!(encoded(u32::MAX), vec![0xff, 0xff, 0xff, 0xff, 0x0f]);
}

#[test]
fn varint_round_trip() {
    for value in [0u32, 1, 2, 127, 128, 129, 16383, 16384, 300, 25565, 2097151, 2097152, 268435455, 268435456, 2147483647, u32::MAX] {
        let bytes = encoded(value);
        assert_eq!(
            read_varint(&bytes, 0),
            Scan::Done { value, next: bytes.len() }
        );
    }
}

#[test]
fn varint_is_read_from_the_given_position() {
    let bytes = vec![0xff, 0xac, 0x02, 0x05];
    assert_eq!(read_varint(&bytes, 1), Scan::Done { value: 300, next: 3 });
    assert_eq!(read_varint(&bytes, 3), Scan::Done { value: 5, next: 4 });
    assert_eq!(read_varint(&bytes, 4), Scan::Short { missing: 1 });
}

#[test]
fn varint_that_ends_early_asks_for_one_byte() {
    assert_eq!(read_varint(&[], 0), Scan::Short { missing: 1 });
    assert_eq!(read_varint(&[0x80], 0), Scan::Short { missing: 1 });
    assert_eq!(read_varint(&[0x80, 0x80, 0x80, 0x80], 0), Scan::Short { missing: 1 });
}

#[test]
fn varint_of_five_continued_bytes_is_too_big() {
    assert_eq!(
        read_varint(&[0x80, 0x80, 0x80, 0x80, 0x80], 0),
        Scan::Invalid { error: McError::VarIntTooBig }
    );
    assert_eq!(
        read_varint(&[0xff, 0xff, 0xff, 0xff, 0xff, 0x01], 0),
        Scan::Invalid { error: McError::VarIntTooBig }
    );
}

#[test]
fn varint_drops_the_bits_beyond_the_thirty_second() {
    assert_eq!(
        read_varint(&[0xff, 0xff, 0xff, 0xff, 0x7f], 0),
        Scan::Done { value: u32::MAX, next: 5 }
    );
    assert_eq!(
        read_varint(&[0x00, 0x80], 0),
        Scan::Done { value: 0, next: 1 }
    );
    assert_eq!(
        read_varint(&[0x80, 0x00], 0),
        Scan::Done { value: 0, next: 2 }
    );
}

#[test]
fn varstring_round_trip() {
    let mut out = Vec::new();
    write_varstring(&mut out, "play.example.net");
    assert_eq!(out[0], 16);
    assert_eq!(&out[1..], b"play.example.net");
    assert_eq!(
        read_varstring(&out, 0),
        Scan::Done { value: "play.example.net".to_string(), next: 17 }
    );
}

#[test]
fn varstring_counts_bytes_not_characters() {
    let mut out = Vec::new();
    write_varstring(&mut out, "héllo");
    assert_eq!(out[0], 6);
    assert_eq!(
        read_varstring(&out, 0),
        Scan::Done { value: "héllo".to_string(), next: 7 }
    );
}

#[test]
fn varstring_that_ends_early_asks_for_the_rest() {
    assert_eq!(read_varstring(&[5, b'a', b'b'], 0), Scan::Short { missing: 3 });
    assert_eq!(read_varstring(&[], 0), Scan::Short { missing: 1 });
    assert_eq!(read_varstring(&[0], 0), Scan::Done { value: String::new(), next: 1 });
}

#[test]
fn varstring_of_bad_utf8_is_invalid() {
    assert_eq!(
        read_varstring(&[2, 0xc3, 0x28], 0),
        Scan::Invalid { error: McError::NotUtf8 }
    );
}

#[test]
fn port_is_big_endian() {
    let mut out = Vec::new();
    write_port(&mut out, 25565);
    assert_eq!(out, vec![0x63, 0xdd]);
    assert_eq!(read_port(&out, 0), Scan::Done { value: 25565, next: 2 });
    assert_eq!(read_port(&out, 1), Scan::Short { missing: 1 });
    assert_eq!(read_port(&out, 2), Scan::Short { missing: 2 });
}

#[test]
fn un_fml_address_cuts_at_the_first_nul() {
    assert_eq!(un_fml_address("play.example.net\0FML\0"), "play.example.net");
    assert_eq!(un_fml_address("play.example.net"), "play.example.net");
    assert_eq!(un_fml_address("\0FML"), "");
    assert_eq!(un_fml_address(""), "");
    assert_eq!(un_fml_address("héllo\0wörld"), "héllo");
}

#[test]
fn mc_validate_compares() {
    assert_eq!(validate(0, 0, "packet ID"), Ok(()));
    assert_eq!(
        validate(0, 7, "packet ID"),
        Err(McError::WrongField { field: "packet ID", expected: 0, actual: 7 })
    );
}

#[test]
fn handshake_is_read_field_by_field() {
    let bytes = handshake_bytes("play.example.net\0FML\0", 25565);
    let expected = Handshake {
        length: (bytes.len() - 1) as u32,
        packet_id: 0,
        version: 763,
        host: "play.example.net\0FML\0".to_string(),
        port: 25565,
        next_state: 2,
    };
    assert_eq!(
        Handshake::read(&bytes),
        Scan::Done { value: expected.clone(), next: bytes.len() }
    );
    assert_eq!(expected.to_bytes(), bytes);
    assert_eq!(
        expected.context(),
        Context {
            host: "play.example.net".to_string(),
            port: 25565,
            address: "play.example.net:25565".to_string(),
        }
    );
}

#[test]
fn sniff_forwards_the_fml_suffix_and_matches_without_it() {
    let bytes = handshake_bytes("play.example.net\0FML\0", 25565);
    match sniff(&bytes) {
        Sniffed::Ready { context, prefix } => {
            assert_eq!(context.host, "play.example.net");
            assert_eq!(context.port, 25565);
            assert_eq!(context.address, "play.example.net:25565");
            assert_eq!(prefix, bytes);
        }
        other => panic!("unexpected answer {:?}", other),
    }
}

#[test]
fn sniff_leaves_what_follows_the_handshake() {
    let mut bytes = handshake_bytes("play.evil.net", 25565);
    let handshake_len = bytes.len();
    bytes.extend_from_slice(&[1, 0]);
    match sniff(&bytes) {
        Sniffed::Ready { context, prefix } => {
            assert_eq!(context.address, "play.evil.net:25565");
            assert_eq!(prefix, bytes[..handshake_len].to_vec());
        }
        other => panic!("unexpected answer {:?}", other),
    }
}

#[test]
fn sniff_asks_for_no_more_than_the_handshake() {
    let bytes = handshake_bytes("play.example.net", 25565);
    let mut have = 0;
    let mut rounds = 0;
    loop {
        match sniff(&bytes[..have]) {
            Sniffed::Need { missing } => {
                assert!(missing >= 1);
                assert!(have + missing <= bytes.len());
                have += missing;
            }
            Sniffed::Ready { prefix, .. } => {
                assert_eq!(have, bytes.len());
                assert_eq!(prefix, bytes);
                break;
            }
            other => panic!("unexpected answer {:?}", other),
        }
        rounds += 1;
        assert!(rounds < 100);
    }
}

#[test]
fn sniff_rewrites_a_padded_varint() {
    let mut bytes = vec![0x15, 0x80, 0x00];
    let mut rest = Vec::new();
    write_varint(&mut rest, 763);
    write_varstring(&mut rest, "a.example");
    write_port(&mut rest, 1);
    write_varint(&mut rest, 1);
    bytes.extend_from_slice(&rest);
    match sniff(&bytes) {
        Sniffed::Ready { context, prefix } => {
            assert_eq!(context.address, "a.example:1");
            let mut expected = vec![0x15, 0x00];
            expected.extend_from_slice(&rest);
            assert_eq!(prefix, expected);
            assert_eq!(
                Handshake::read(&prefix),
                Scan::Done {
                    value: Handshake {
                        length: 0x15,
                        packet_id: 0,
                        version: 763,
                        host: "a.example".to_string(),
                        port: 1,
                        next_state: 1,
                    },
                    next: prefix.len(),
                }
            );
        }
        other => panic!("unexpected answer {:?}", other),
    }
}

#[test]
fn sniff_rejects_another_packet_id() {
    assert_eq!(
        sniff(&[0x10, 0x01]),
        Sniffed::Rejected {
            error: McError::WrongField { field: "packet ID", expected: 0, actual: 1 }
        }
    );
}

#[test]
fn sniff_rejects_an_endless_varint() {
    assert_eq!(
        sniff(&[0xff, 0xff, 0xff, 0xff, 0xff]),
        Sniffed::Rejected { error: McError::VarIntTooBig }
    );
}

#[test]
fn sniff_rejects_a_host_that_is_not_utf8() {
    assert_eq!(
        sniff(&[0x06, 0x00, 0x05, 0x02, 0xff, 0xfe]),
        Sniffed::Rejected { error: McError::NotUtf8 }
    );
}
