//! The TLS sniffer: finds the server name that a ClientHello asks for,
//! without taking part in the handshake.

use crate::chain::Context;
use crate::sniff::{Answer, Sniffed};
use crate::text::{decimal, push_decimal, string_from_utf8};
use bytes::{Buf, Bytes};
use vstd::prelude::*;
use vstd::slice::{slice_subrange, slice_to_vec};
use vstd::string::StringExecFns;
use vstd::utf8::{decode_utf8, valid_utf8};

verus! {

/// Why a byte sequence is no ClientHello that names a server.
#[derive(Debug, Clone, PartialEq, Eq)]
pub enum TlsError {
    /// A field held another value than the protocol, or the lengths around
    /// it, fix for it.
    WrongField { field: &'static str, expected: u32, actual: u32 },
    /// A length points past the end of what holds it.
    Truncated,
    /// No extension of the ClientHello names a host.
    NoServerName,
    /// The host name is not UTF-8.
    NotUtf8,
}

/// The content type of a handshake record.
pub const CONTENT_TYPE_HANDSHAKE: u8 = 22;

/// The handshake type of a ClientHello.
pub const HANDSHAKE_TYPE_CLIENT_HELLO: u8 = 1;

/// The extension type of server_name.
pub const EXTENSION_SERVER_NAME: u16 = 0;

/// The name type of a host name.
pub const EXTENSION_SERVER_NAME_TYPE_HOSTNAME: u8 = 0;

/// The length of a record's header: content type, version and length.
pub const RECORD_HEADER_LEN: usize = 5;

/// The port that a TLS connection is taken to.
pub const TLS_PORT: u16 = 443;

/// The first two bytes of `s` as a big-endian number.
pub open spec fn be16(s: Seq<u8>) -> int
    recommends
        s.len() >= 2,
{
    s[0] * 256 + s[1]
}

/// The first three bytes of `s` as a big-endian number.
pub open spec fn be24(s: Seq<u8>) -> int
    recommends
        s.len() >= 3,
{
    s[0] * 65536 + s[1] * 256 + s[2]
}

/// What follows a vector whose length is its first byte.
pub open spec fn after_vector8(s: Seq<u8>) -> Option<Seq<u8>> {
    if s.len() >= 1 && s.len() >= 1 + s[0] {
        Some(s.skip(1 + s[0]))
    } else {
        None
    }
}

/// What follows a vector whose length is its first two bytes.
pub open spec fn after_vector16(s: Seq<u8>) -> Option<Seq<u8>> {
    if s.len() >= 2 && s.len() >= 2 + be16(s) {
        Some(s.skip(2 + be16(s)))
    } else {
        None
    }
}

/// The host name in the names of a server_name extension, walked from
/// `names` on: `Ok(None)` where the names end without one. An entry is a
/// type, two bytes of length and the name. The first entry of type host_name
/// is the answer; it has to end where the list ends.
pub open spec fn host_in_names(names: Seq<u8>) -> Result<Option<Seq<char>>, TlsError>
    decreases names.len(),
{
    if names.len() == 0 {
        Ok(None)
    } else if names.len() < 3 {
        Err(TlsError::Truncated)
    } else if names[0] == 0 {
        if be16(names.skip(1)) != names.len() - 3 {
            Err(
                TlsError::WrongField {
                    field: "extension server_name server name length",
                    expected: (names.len() - 3) as u32,
                    actual: be16(names.skip(1)) as u32,
                },
            )
        } else if !valid_utf8(names.skip(3)) {
            Err(TlsError::NotUtf8)
        } else {
            Ok(Some(decode_utf8(names.skip(3))))
        }
    } else if names.len() < 3 + be16(names.skip(1)) {
        Err(TlsError::Truncated)
    } else {
        host_in_names(names.skip(3 + be16(names.skip(1))))
    }
}

/// The host name in the body of a server_name extension: two bytes that
/// count the rest, then the names.
pub open spec fn host_in_server_name(ext: Seq<u8>) -> Result<Option<Seq<char>>, TlsError> {
    if ext.len() < 2 {
        Err(TlsError::Truncated)
    } else if be16(ext) != ext.len() - 2 {
        Err(
            TlsError::WrongField {
                field: "extension server_name list length",
                expected: (ext.len() - 2) as u32,
                actual: be16(ext) as u32,
            },
        )
    } else {
        host_in_names(ext.skip(2))
    }
}

/// The host name in a block of extensions: each is two bytes of type, two
/// of length and a body; the first server_name extension that holds a host
/// name decides.
pub open spec fn host_in_extensions(exts: Seq<u8>) -> Result<Seq<char>, TlsError>
    decreases exts.len(),
{
    if exts.len() == 0 {
        Err(TlsError::NoServerName)
    } else if exts.len() < 4 || exts.len() < 4 + be16(exts.skip(2)) {
        Err(TlsError::Truncated)
    } else {
        let body = exts.subrange(4, 4 + be16(exts.skip(2)));
        let rest = exts.skip(4 + be16(exts.skip(2)));
        if be16(exts) == 0 {
            match host_in_server_name(body) {
                Ok(Some(host)) => Ok(host),
                Ok(None) => host_in_extensions(rest),
                Err(error) => Err(error),
            }
        } else {
            host_in_extensions(rest)
        }
    }
}

/// The extensions of a ClientHello, given what follows its handshake
/// header: version, random, session id, cipher suites and compression
/// methods are passed over.
pub open spec fn hello_extensions(hello: Seq<u8>) -> Option<Seq<u8>> {
    if hello.len() < 34 {
        None
    } else {
        match after_vector8(hello.skip(34)) {
            None => None,
            Some(suites) => match after_vector16(suites) {
                None => None,
                Some(methods) => match after_vector8(methods) {
                    None => None,
                    Some(tail) => if tail.len() >= 2 && tail.len() >= 2 + be16(tail) {
                        Some(tail.subrange(2, 2 + be16(tail)))
                    } else {
                        None
                    },
                },
            },
        }
    }
}

/// The host name that the handshake message in `body`, a record's payload,
/// asks for.
pub open spec fn hello_host(body: Seq<u8>) -> Result<Seq<char>, TlsError> {
    if body.len() < 1 {
        Err(TlsError::Truncated)
    } else if body[0] != 1 {
        Err(TlsError::WrongField { field: "handshake type", expected: 1, actual: body[0] as u32 })
    } else if body.len() < 4 {
        Err(TlsError::Truncated)
    } else if be24(body.skip(1)) != body.len() - 4 {
        Err(
            TlsError::WrongField {
                field: "handshake message length",
                expected: (body.len() - 4) as u32,
                actual: be24(body.skip(1)) as u32,
            },
        )
    } else {
        match hello_extensions(body.skip(4)) {
            None => Err(TlsError::Truncated),
            Some(exts) => host_in_extensions(exts),
        }
    }
}

/// What the bytes read from a client so far say of its destination. The
/// content type is judged on the first byte, the rest once the whole record
/// is there; the record goes to the upstream byte for byte.
pub open spec fn sniffed(s: Seq<u8>) -> Answer<TlsError> {
    if s.len() == 0 {
        Answer::Need { missing: 1 }
    } else if s[0] != 22 {
        Answer::Rejected {
            error: TlsError::WrongField { field: "content type", expected: 22, actual: s[0] as u32 },
        }
    } else if s.len() < 5 {
        Answer::Need { missing: (5 - s.len()) as nat }
    } else if s.len() < 5 + be16(s.skip(3)) {
        Answer::Need { missing: (5 + be16(s.skip(3)) - s.len()) as nat }
    } else {
        match hello_host(s.subrange(5, 5 + be16(s.skip(3)))) {
            Err(error) => Answer::Rejected { error },
            Ok(host) => Answer::Ready { host, port: 443, prefix: s.take(5 + be16(s.skip(3))) },
        }
    }
}

#[verifier::external_type_specification]
#[verifier::external_body]
pub struct ExBytes(bytes::Bytes);

/// The bytes that a buffer holds from its cursor on, in order.
pub uninterp spec fn unread(buffer: Bytes) -> Seq<u8>;

/// `bytes::Bytes::copy_from_slice`: a buffer that holds a copy of `data`,
/// its cursor at the start.
#[verifier::external_body]
fn bytes_from(data: &[u8]) -> (buffer: Bytes)
    ensures
        unread(buffer) == data@,
{
    Bytes::copy_from_slice(data)
}

/// `bytes::Buf::remaining` of `Bytes`: the number of bytes from the cursor on.
#[verifier::external_body]
fn unread_len(buffer: &Bytes) -> (n: usize)
    ensures
        n == unread(*buffer).len(),
{
    buffer.remaining()
}

/// `bytes::Buf::get_u8` of `Bytes`: the byte at the cursor, which moves
/// past it. It panics on an empty buffer.
#[verifier::external_body]
fn take_u8(buffer: &mut Bytes) -> (value: u8)
    requires
        unread(*old(buffer)).len() >= 1,
    ensures
        value == unread(*old(buffer))[0],
        unread(*final(buffer)) == unread(*old(buffer)).skip(1),
{
    buffer.get_u8()
}

/// `bytes::Buf::get_u16` of `Bytes`: the two bytes at the cursor as a
/// big-endian number; the cursor moves past them. It panics on fewer bytes.
#[verifier::external_body]
fn take_u16(buffer: &mut Bytes) -> (value: u16)
    requires
        unread(*old(buffer)).len() >= 2,
    ensures
        value == be16(unread(*old(buffer))),
        unread(*final(buffer)) == unread(*old(buffer)).skip(2),
{
    buffer.get_u16()
}

/// `bytes::Buf::advance` of `Bytes`: the cursor moves `count` bytes on. It
/// panics where fewer are left.
#[verifier::external_body]
fn skip_bytes(buffer: &mut Bytes, count: usize)
    requires
        count <= unread(*old(buffer)).len(),
    ensures
        unread(*final(buffer)) == unread(*old(buffer)).skip(count as int),
{
    buffer.advance(count)
}

/// `bytes::Bytes::split_to`: a buffer of the first `count` bytes from the
/// cursor on, which moves past them. It panics where fewer are left.
#[verifier::external_body]
fn split_front(buffer: &mut Bytes, count: usize) -> (front: Bytes)
    requires
        count <= unread(*old(buffer)).len(),
    ensures
        unread(front) == unread(*old(buffer)).take(count as int),
        unread(*final(buffer)) == unread(*old(buffer)).skip(count as int),
{
    buffer.split_to(count)
}

/// `bytes::Buf::chunk` of `Bytes`: all the bytes from the cursor on, which
/// stays.
#[verifier::external_body]
fn peek(buffer: &Bytes) -> (bytes: &[u8])
    ensures
        bytes@ == unread(*buffer),
{
    buffer.chunk()
}

/// Checks that a field holds the value that the protocol, or the lengths
/// around it, fix for it.
pub fn validate(expect: u32, actual: u32, field_name: &'static str) -> (r: Result<(), TlsError>)
    ensures
        r is Ok <==> expect == actual,
        r matches Err(error) ==> error == (TlsError::WrongField {
            field: field_name,
            expected: expect,
            actual,
        }),
{
    if expect == actual {
        Ok(())
    } else {
        Err(TlsError::WrongField { field: field_name, expected: expect, actual })
    }
}

/// Takes three bytes from the buffer as a big-endian number.
fn get_u24(buffer: &mut Bytes) -> (value: u32)
    requires
        unread(*old(buffer)).len() >= 3,
    ensures
        value == be24(unread(*old(buffer))),
        unread(*final(buffer)) == unread(*old(buffer)).skip(3),
{
    let high: u32 = take_u8(buffer) as u32;
    let middle: u32 = take_u8(buffer) as u32;
    let low: u32 = take_u8(buffer) as u32;
    assert(unread(*buffer) =~= unread(*old(buffer)).skip(3));
    high * 65536 + middle * 256 + low
}

/// Moves the cursor past a vector whose length is its first byte.
fn skip_vector8(buffer: &mut Bytes) -> (passed: bool)
    ensures
        passed <==> after_vector8(unread(*old(buffer))) is Some,
        passed ==> unread(*final(buffer)) == after_vector8(unread(*old(buffer)))->0,
{
    if unread_len(buffer) < 1 {
        return false;
    }
    let count: usize = take_u8(buffer) as usize;
    if unread_len(buffer) < count {
        return false;
    }
    skip_bytes(buffer, count);
    assert(unread(*buffer) =~= unread(*old(buffer)).skip(1 + count));
    true
}

/// Moves the cursor past a vector whose length is its first two bytes.
fn skip_vector16(buffer: &mut Bytes) -> (passed: bool)
    ensures
        passed <==> after_vector16(unread(*old(buffer))) is Some,
        passed ==> unread(*final(buffer)) == after_vector16(unread(*old(buffer)))->0,
{
    if unread_len(buffer) < 2 {
        return false;
    }
    let count: usize = take_u16(buffer) as usize;
    if unread_len(buffer) < count {
        return false;
    }
    skip_bytes(buffer, count);
    assert(unread(*buffer) =~= unread(*old(buffer)).skip(2 + count));
    true
}

/// Looks for the host name among the names of a server_name extension.
fn find_host_name(names: Bytes) -> (r: Result<Option<String>, TlsError>)
    requires
        unread(names).len() <= 0xffff,
    ensures
        match host_in_names(unread(names)) {
            Ok(Some(host)) => r matches Ok(Some(found)) && found@ == host,
            Ok(None) => r matches Ok(None),
            Err(error) => r matches Err(e) && e == error,
        },
{
    let mut cursor = names;
    loop
        invariant
            unread(cursor).len() <= 0xffff,
            host_in_names(unread(cursor)) == host_in_names(unread(names)),
        decreases unread(cursor).len(),
    {
        let ghost here = unread(cursor);
        let left = unread_len(&cursor);
        if left == 0 {
            return Ok(None);
        }
        if left < 3 {
            return Err(TlsError::Truncated);
        }
        let name_type = take_u8(&mut cursor);
        let count = take_u16(&mut cursor);
        assert(unread(cursor) =~= here.skip(3));
        if name_type == EXTENSION_SERVER_NAME_TYPE_HOSTNAME {
            match validate(
                (left - 3) as u32,
                count as u32,
                "extension server_name server name length",
            ) {
                Ok(()) => {},
                Err(error) => {
                    return Err(error);
                },
            }
            let bytes = slice_to_vec(peek(&cursor));
            return match string_from_utf8(bytes) {
                Some(host) => Ok(Some(host)),
                None => Err(TlsError::NotUtf8),
            };
        }
        if unread_len(&cursor) < count as usize {
            return Err(TlsError::Truncated);
        }
        skip_bytes(&mut cursor, count as usize);
        assert(unread(cursor) =~= here.skip(3 + count));
    }
}

/// Looks for the host name in the body of a server_name extension.
fn find_in_server_name(ext: Bytes) -> (r: Result<Option<String>, TlsError>)
    requires
        unread(ext).len() <= 0xffff,
    ensures
        match host_in_server_name(unread(ext)) {
            Ok(Some(host)) => r matches Ok(Some(found)) && found@ == host,
            Ok(None) => r matches Ok(None),
            Err(error) => r matches Err(e) && e == error,
        },
{
    let mut ext = ext;
    let left = unread_len(&ext);
    if left < 2 {
        return Err(TlsError::Truncated);
    }
    let list_length = take_u16(&mut ext);
    match validate((left - 2) as u32, list_length as u32, "extension server_name list length") {
        Ok(()) => {},
        Err(error) => {
            return Err(error);
        },
    }
    find_host_name(ext)
}

/// Looks for the host name in a block of extensions.
fn find_in_extensions(exts: Bytes) -> (r: Result<String, TlsError>)
    requires
        unread(exts).len() <= 0xffff,
    ensures
        match host_in_extensions(unread(exts)) {
            Ok(host) => r matches Ok(found) && found@ == host,
            Err(error) => r matches Err(e) && e == error,
        },
{
    let mut cursor = exts;
    loop
        invariant
            unread(cursor).len() <= 0xffff,
            host_in_extensions(unread(cursor)) == host_in_extensions(unread(exts)),
        decreases unread(cursor).len(),
    {
        let ghost here = unread(cursor);
        let left = unread_len(&cursor);
        if left == 0 {
            return Err(TlsError::NoServerName);
        }
        if left < 4 {
            return Err(TlsError::Truncated);
        }
        let extension_type = take_u16(&mut cursor);
        let extension_length = take_u16(&mut cursor);
        assert(unread(cursor) =~= here.skip(4));
        assert(be16(here.skip(2)) == extension_length);
        if unread_len(&cursor) < extension_length as usize {
            return Err(TlsError::Truncated);
        }
        let body = split_front(&mut cursor, extension_length as usize);
        assert(unread(body) =~= here.subrange(4, 4 + extension_length));
        assert(unread(cursor) =~= here.skip(4 + extension_length));
        if extension_type == EXTENSION_SERVER_NAME {
            match find_in_server_name(body) {
                Ok(Some(host)) => {
                    return Ok(host);
                },
                Ok(None) => {},
                Err(error) => {
                    return Err(error);
                },
            }
        }
    }
}

/// Moves the cursor from the start of a ClientHello's version to the start
/// of its extensions, and cuts the buffer where they end.
fn seek_extensions(hello: Bytes) -> (r: Option<Bytes>)
    ensures
        match hello_extensions(unread(hello)) {
            Some(exts) => r matches Some(found) && unread(found) == exts,
            None => r is None,
        },
{
    let mut hello = hello;
    if unread_len(&hello) < 34 {
        return None;
    }
    skip_bytes(&mut hello, 34);
    if !skip_vector8(&mut hello) {
        return None;
    }
    if !skip_vector16(&mut hello) {
        return None;
    }
    if !skip_vector8(&mut hello) {
        return None;
    }
    if unread_len(&hello) < 2 {
        return None;
    }
    let ghost tail = unread(hello);
    let extensions_length = take_u16(&mut hello);
    if unread_len(&hello) < extensions_length as usize {
        return None;
    }
    let exts = split_front(&mut hello, extensions_length as usize);
    assert(unread(exts) =~= tail.subrange(2, 2 + extensions_length));
    Some(exts)
}

/// The host name that the handshake message in `body`, the payload of one
/// record, asks for.
pub fn client_hello_host(body: &[u8]) -> (r: Result<String, TlsError>)
    requires
        body@.len() <= 0xffff,
    ensures
        match hello_host(body@) {
            Ok(host) => r matches Ok(found) && found@ == host,
            Err(error) => r matches Err(e) && e == error,
        },
{
    let mut cursor = bytes_from(body);
    let message_length = unread_len(&cursor);
    if message_length < 1 {
        return Err(TlsError::Truncated);
    }
    let handshake_type = take_u8(&mut cursor);
    match validate(HANDSHAKE_TYPE_CLIENT_HELLO as u32, handshake_type as u32, "handshake type") {
        Ok(()) => {},
        Err(error) => {
            return Err(error);
        },
    }
    if message_length < 4 {
        return Err(TlsError::Truncated);
    }
    let hello_length = get_u24(&mut cursor);
    assert(unread(cursor) =~= body@.skip(4));
    match validate((message_length - 4) as u32, hello_length, "handshake message length") {
        Ok(()) => {},
        Err(error) => {
            return Err(error);
        },
    }
    match seek_extensions(cursor) {
        None => Err(TlsError::Truncated),
        Some(exts) => find_in_extensions(exts),
    }
}

/// Looks for a ClientHello that names a server in the bytes read from a
/// client so far.
pub fn sniff(buf: &[u8]) -> (r: Sniffed<TlsError>)
    ensures
        r@ == sniffed(buf@),
        r.wf(),
{
    if buf.len() == 0 {
        return Sniffed::Need { missing: 1 };
    }
    let content_type = buf[0];
    match validate(CONTENT_TYPE_HANDSHAKE as u32, content_type as u32, "content type") {
        Ok(()) => {},
        Err(error) => {
            return Sniffed::Rejected { error };
        },
    }
    if buf.len() < RECORD_HEADER_LEN {
        return Sniffed::Need { missing: RECORD_HEADER_LEN - buf.len() };
    }
    let message_length: usize = (buf[3] as usize) * 256 + (buf[4] as usize);
    let available: usize = buf.len() - RECORD_HEADER_LEN;
    if available < message_length {
        return Sniffed::Need { missing: message_length - available };
    }
    let end: usize = RECORD_HEADER_LEN + message_length;
    match client_hello_host(slice_subrange(buf, RECORD_HEADER_LEN, end)) {
        Err(error) => Sniffed::Rejected { error },
        Ok(host) => {
            let prefix = slice_to_vec(slice_subrange(buf, 0, end));
            assert(prefix@ =~= buf@.take(end as int));
            Sniffed::Ready { context: Context::new(host, TLS_PORT), prefix }
        },
    }
}

/// The record that is forwarded is what the client sent, byte for byte.
pub proof fn lemma_prefix_is_the_record(s: Seq<u8>)
    requires
        sniffed(s) is Ready,
    ensures
        sniffed(s)->prefix == s.take(sniffed(s)->prefix.len() as int),
        sniffed(s)->prefix.len() == 5 + be16(s.skip(3)),
        sniffed(s)->prefix.len() <= s.len(),
{
    let n = 5 + be16(s.skip(3));
    assert(s.take(n).take(n) =~= s.take(n));
}

/// Bytes that come after an answer do not change it: what was ready stays
/// ready with the same host and the same record, and what was rejected
/// stays rejected.
pub proof fn lemma_answer_is_final(s: Seq<u8>, e: Seq<u8>)
    requires
        !(sniffed(s) is Need),
    ensures
        sniffed(s + e) == sniffed(s),
{
    let t = s + e;
    assert(t[0] == s[0]);
    if s[0] == 22 {
        assert(t.skip(3)[0] == s.skip(3)[0] && t.skip(3)[1] == s.skip(3)[1]);
        let n = 5 + be16(s.skip(3));
        assert(t.subrange(5, n) =~= s.subrange(5, n));
        assert(t.take(n) =~= s.take(n));
    }
}

/// A sniffer that is given fewer bytes than it asked for asks for the rest.
pub proof fn lemma_need_counts_down(s: Seq<u8>, e: Seq<u8>)
    requires
        sniffed(s) matches Answer::Need { missing } && e.len() < missing,
    ensures
        sniffed(s + e) == (Answer::<TlsError>::Need {
            missing: (sniffed(s)->missing - e.len()) as nat,
        }),
{
    let t = s + e;
    if s.len() == 0 {
        assert(t =~= s);
    } else {
        assert(t[0] == s[0]);
        if s.len() >= 5 {
            assert(t.skip(3)[0] == s.skip(3)[0] && t.skip(3)[1] == s.skip(3)[1]);
        }
    }
}

/// A sniffer that is given the bytes that it asked for, and no more, has
/// read nothing beyond the record when it is ready: all that was taken from
/// the client goes to the upstream.
pub proof fn lemma_sniffer_reads_the_record_only(s: Seq<u8>, e: Seq<u8>)
    requires
        sniffed(s) matches Answer::Need { missing } && e.len() == missing,
        sniffed(s + e) is Ready,
    ensures
        sniffed(s + e)->prefix == s + e,
{
    let t = s + e;
    if s.len() >= 5 {
        assert(t.skip(3)[0] == s.skip(3)[0] && t.skip(3)[1] == s.skip(3)[1]);
        assert(t.take(t.len() as int) =~= t);
    } else {
        assert(t.len() <= 5);
        assert(t.subrange(5, 5) =~= Seq::<u8>::empty());
    }
}

impl TlsError {
    /// The error in words.
    pub open spec fn text(self) -> Seq<char> {
        match self {
            TlsError::WrongField { field, expected, actual } => "wrong TLS field \""@ + field@
                + "\" value ("@ + decimal(expected as nat) + " expected, got "@ + decimal(
                actual as nat,
            ) + ")"@,
            TlsError::Truncated => "a length of the ClientHello points past its end"@,
            TlsError::NoServerName => "no server_name extension found; drop"@,
            TlsError::NotUtf8 => "the server name is not UTF-8"@,
        }
    }

    /// The error in words.
    pub fn message(&self) -> (text: String)
        ensures
            text@ == self.text(),
    {
        match self {
            TlsError::WrongField { field, expected, actual } => {
                let mut text = String::from_str("wrong TLS field \"");
                text.append(field);
                text.append("\" value (");
                push_decimal(&mut text, *expected);
                text.append(" expected, got ");
                push_decimal(&mut text, *actual);
                text.append(")");
                assert(text@ =~= self.text());
                text
            },
            TlsError::Truncated => String::from_str(
                "a length of the ClientHello points past its end",
            ),
            TlsError::NoServerName => String::from_str("no server_name extension found; drop"),
            TlsError::NotUtf8 => String::from_str("the server name is not UTF-8"),
        }
    }
}

} // verus!
