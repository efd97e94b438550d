//! The Minecraft sniffer: the VarInt and VarString codecs and the handshake
//! packet that opens a Java-Edition connection.

use crate::chain::Context;
use crate::sniff::{Answer, Sniffed};
use crate::text::{chars_of, decimal, push_decimal, string_from_utf8};
use vstd::prelude::*;
use vstd::slice::{slice_subrange, slice_to_vec};
use vstd::string::{StrSliceExecFns, StringExecFns, StringSliceAdditionalSpecFns};
use vstd::utf8::{decode_utf8, encode_utf8, valid_utf8};

verus! {

/// Why a byte sequence is no Minecraft handshake.
#[derive(Debug, Clone, PartialEq, Eq)]
pub enum McError {
    /// Five bytes in a row announced a further byte of one VarInt.
    VarIntTooBig,
    /// The bytes of a VarString are not UTF-8.
    NotUtf8,
    /// A field held another value than the protocol fixes for it.
    WrongField { field: &'static str, expected: u32, actual: u32 },
}

/// What a sequence of bytes holds at its start, as far as it can be told.
pub enum Parsed<T> {
    /// A whole value, encoded in the first `used` bytes.
    Done { value: T, used: nat },
    /// The bytes end before the value does: at least `missing` more are needed.
    Short { missing: nat },
    /// No continuation of the bytes is a value.
    Invalid { error: McError },
}

/// What a reader found in a buffer from some position on.
#[derive(Debug, Clone, PartialEq, Eq)]
pub enum Scan<T> {
    /// A whole value; the next field starts at `next`.
    Done { value: T, next: usize },
    /// The buffer ends before the value does: at least `missing` more bytes are needed.
    Short { missing: usize },
    /// No continuation of the buffer is a value.
    Invalid { error: McError },
}

/// The most bytes that one VarInt takes.
pub const VARINT_MAX_BYTES: usize = 5;

/// `128` to the power `n`: the weight of the `n`-th group of seven bits.
pub open spec fn pow128(n: nat) -> nat
    decreases n,
{
    if n == 0 {
        1
    } else {
        128 * pow128((n - 1) as nat)
    }
}

/// The number that the seven low bits of each byte of `s` spell, least
/// significant group first.
pub open spec fn group_value(s: Seq<u8>) -> nat
    decreases s.len(),
{
    if s.len() == 0 {
        0
    } else {
        (s[0] % 128) as nat + 128 * group_value(s.skip(1))
    }
}

/// The VarInt at the start of `s`, looking at the byte at `k` next. A byte
/// below 128 ends the VarInt; the value is taken modulo 2^32.
pub open spec fn parse_varint_at(s: Seq<u8>, k: int) -> Parsed<u32>
    decreases 5 - k,
{
    if k >= 5 {
        Parsed::Invalid { error: McError::VarIntTooBig }
    } else if k < 0 || k >= s.len() {
        Parsed::Short { missing: 1 }
    } else if s[k] < 128 {
        Parsed::Done {
            value: (group_value(s.take(k + 1)) % 0x1_0000_0000) as u32,
            used: (k + 1) as nat,
        }
    } else {
        parse_varint_at(s, k + 1)
    }
}

/// The VarInt at the start of `s`.
pub open spec fn parse_varint(s: Seq<u8>) -> Parsed<u32> {
    parse_varint_at(s, 0)
}

/// The bytes that encode `v` as a VarInt: seven bits a byte, least
/// significant first, the high bit set on every byte but the last.
pub open spec fn encode_varint(v: u32) -> Seq<u8>
    decreases v,
{
    if v < 128 {
        seq![v as u8]
    } else {
        seq![(v % 128 + 128) as u8] + encode_varint(v / 128)
    }
}

proof fn lemma_group_value_push(s: Seq<u8>, b: u8)
    ensures
        group_value(s.push(b)) == group_value(s) + (b % 128) * pow128(s.len()),
    decreases s.len(),
{
    let t = s.push(b);
    let g = (b % 128) as nat;
    assert(t.len() > 0);
    assert(group_value(t) == (t[0] % 128) as nat + 128 * group_value(t.skip(1)));
    if s.len() == 0 {
        assert(t.skip(1) =~= Seq::<u8>::empty());
        assert(group_value(t.skip(1)) == 0);
        assert(t[0] == b);
        assert(pow128(0) == 1);
        assert(group_value(s) == 0);
        assert(g * 1 == g);
    } else {
        assert(t.skip(1) =~= s.skip(1).push(b));
        assert(t[0] == s[0]);
        lemma_group_value_push(s.skip(1), b);
        let w = pow128((s.len() - 1) as nat);
        let r = group_value(s.skip(1));
        assert(group_value(s) == (s[0] % 128) as nat + 128 * r);
        assert(pow128(s.len()) == 128 * w);
        assert(group_value(t.skip(1)) == r + g * w);
        assert(128 * (r + g * w) == 128 * r + g * (128 * w)) by (nonlinear_arith);
    }
}

proof fn lemma_group_value_bound(s: Seq<u8>)
    ensures
        group_value(s) < pow128(s.len()),
    decreases s.len(),
{
    if s.len() > 0 {
        lemma_group_value_bound(s.skip(1));
    }
}

proof fn lemma_pow128_values()
    ensures
        pow128(0) == 1,
        pow128(1) == 0x80,
        pow128(2) == 0x4000,
        pow128(3) == 0x20_0000,
        pow128(4) == 0x1000_0000,
        pow128(5) == 0x8_0000_0000,
{
    reveal_with_fuel(pow128, 6);
}

/// Reads the VarInt that starts at `start` in `buf`.
pub fn read_varint(buf: &[u8], start: usize) -> (r: Scan<u32>)
    requires
        start <= buf.len(),
    ensures
        match parse_varint(buf@.skip(start as int)) {
            Parsed::Done { value, used } => r matches Scan::Done { value: v, next } && v == value
                && next == start + used,
            Parsed::Short { missing } => r matches Scan::Short { missing: m } && m == missing,
            Parsed::Invalid { error } => r == (Scan::<u32>::Invalid { error }),
        },
        r matches Scan::Done { next, .. } ==> start < next <= buf.len(),
{
    let ghost s = buf@.skip(start as int);
    let mut value: u32 = 0;
    let mut k: usize = 0;
    proof {
        assert(s.take(0) =~= Seq::<u8>::empty());
    }
    while k < VARINT_MAX_BYTES
        invariant
            k <= 5,
            start <= buf.len(),
            s == buf@.skip(start as int),
            k <= s.len(),
            k <= 4 ==> value == group_value(s.take(k as int)),
            parse_varint(s) == parse_varint_at(s, k as int),
        decreases 5 - k,
    {
        if k >= buf.len() - start {
            return Scan::Short { missing: 1 };
        }
        let byte: u8 = buf[start + k];
        assert(byte == s[k as int]);
        let ghost before = value;
        let group: u32 = (byte & 0x7f) as u32;
        let shift: u32 = 7 * (k as u32);
        value = value | (group << shift);
        proof {
            let low = s.take(k as int);
            assert(s.take(k + 1) =~= low.push(byte));
            lemma_group_value_push(low, byte);
            lemma_group_value_bound(low);
            lemma_group_value_bound(s.take(k + 1));
            lemma_pow128_values();
            assert(byte & 0x7f == byte % 128) by (bit_vector);
            assert(byte & 0x80 == 0 <==> byte < 128) by (bit_vector);
            let whole = group_value(s.take(k + 1));
            if k <= 3 {
                assert(before < (1u32 << shift) ==> before | (group << shift) == before + group * (
                1u32 << shift)) by (bit_vector)
                    requires
                        group < 128,
                        shift == 0 || shift == 7 || shift == 14 || shift == 21,
                ;
                assert(1u32 << 0 == 1 && 1u32 << 7 == 0x80 && 1u32 << 14 == 0x4000 && 1u32 << 21
                    == 0x20_0000) by (bit_vector);
                assert(value == whole);
            } else {
                assert(before < 0x1000_0000 ==> before | (group << 28) == before + (group % 16)
                    * 0x1000_0000) by (bit_vector)
                    requires
                        group < 128,
                ;
                assert(whole == before + group * 0x1000_0000);
                assert(whole == value + (group / 16) * 0x1_0000_0000int) by (nonlinear_arith)
                    requires
                        whole == before + group * 0x1000_0000,
                        value == before + (group % 16) * 0x1000_0000,
                        group < 128,
                ;
                assert(value == whole % 0x1_0000_0000) by (nonlinear_arith)
                    requires
                        whole == value + (group / 16) * 0x1_0000_0000int,
                        0 <= value < 0x1_0000_0000,
                        0 <= group / 16,
                ;
            }
            assert(value == whole % 0x1_0000_0000);
        }
        if byte & 0x80 == 0 {
            return Scan::Done { value, next: start + k + 1 };
        }
        k += 1;
    }
    Scan::Invalid { error: McError::VarIntTooBig }
}

/// Appends `value` to `out` as a VarInt.
pub fn write_varint(out: &mut Vec<u8>, value: u32)
    ensures
        final(out)@ == old(out)@ + encode_varint(value),
{
    let mut rest: u32 = value;
    let ghost written: Seq<u8> = Seq::empty();
    assert(out@ =~= old(out)@ + written);
    while rest >= 128
        invariant
            out@ == old(out)@ + written,
            written + encode_varint(rest) == encode_varint(value),
        decreases rest,
    {
        let byte: u8 = ((rest & 0x7f) | 0x80) as u8;
        proof {
            assert(rest & 0x7f == rest % 128) by (bit_vector);
            assert((rest & 0x7f) | 0x80 == rest % 128 + 128) by (bit_vector);
            assert(rest >> 7 == rest / 128) by (bit_vector);
            assert(written.push(byte) + encode_varint(rest / 128) =~= written + encode_varint(rest));
            assert(out@.push(byte) =~= old(out)@ + written.push(byte));
            written = written.push(byte);
        }
        out.push(byte);
        rest = rest >> 7;
    }
    proof {
        assert(out@.push(rest as u8) =~= old(out)@ + (written + encode_varint(rest)));
    }
    out.push(rest as u8);
}

/// What `encode_varint` writes is between one and five bytes, of which only
/// the last is below 128, and spells `v`.
pub proof fn lemma_encode_varint_shape(v: u32)
    ensures
        1 <= encode_varint(v).len() <= 5,
        forall|i: int| 0 <= i < encode_varint(v).len() - 1 ==> encode_varint(v)[i] >= 128,
        encode_varint(v).last() < 128,
        group_value(encode_varint(v)) == v,
{
    lemma_pow128_values();
    lemma_encode_varint_bounded(v, 5);
}

proof fn lemma_encode_varint_bounded(v: u32, n: nat)
    requires
        v < pow128(n),
        n >= 1,
    ensures
        1 <= encode_varint(v).len() <= n,
        forall|i: int| 0 <= i < encode_varint(v).len() - 1 ==> encode_varint(v)[i] >= 128,
        encode_varint(v).last() < 128,
        group_value(encode_varint(v)) == v,
    decreases v,
{
    let e = encode_varint(v);
    if v < 128 {
        assert(e.skip(1) =~= Seq::<u8>::empty());
        assert(group_value(e.skip(1)) == 0);
    } else {
        let tail = encode_varint(v / 128);
        assert(n >= 2) by {
            reveal_with_fuel(pow128, 2);
        }
        assert(pow128(n) == 128 * pow128((n - 1) as nat));
        lemma_encode_varint_bounded(v / 128, (n - 1) as nat);
        assert(e.skip(1) =~= tail);
        assert(e[0] == (v % 128 + 128) as u8);
        assert(e.last() == tail.last());
        assert forall|i: int| 0 <= i < e.len() - 1 implies e[i] >= 128 by {
            if i > 0 {
                assert(e[i] == tail[i - 1]);
            }
        }
    }
}

/// Reading back what `encode_varint` wrote gives the value that was written,
/// whatever follows it.
pub proof fn lemma_varint_round_trip(v: u32, rest: Seq<u8>)
    ensures
        parse_varint(encode_varint(v) + rest) == (Parsed::Done {
            value: v,
            used: encode_varint(v).len(),
        }),
{
    let e = encode_varint(v);
    let s = e + rest;
    lemma_encode_varint_shape(v);
    assert(s.take(e.len() as int) =~= e);
    lemma_parse_varint_steps(s, e.len() as int, 0);
}

proof fn lemma_parse_varint_steps(s: Seq<u8>, n: int, k: int)
    requires
        1 <= n <= 5,
        n <= s.len(),
        0 <= k < n,
        forall|i: int| 0 <= i < n - 1 ==> s[i] >= 128,
        s[n - 1] < 128,
    ensures
        parse_varint_at(s, k) == (Parsed::Done {
            value: (group_value(s.take(n)) % 0x1_0000_0000) as u32,
            used: n as nat,
        }),
    decreases n - k,
{
    if k < n - 1 {
        lemma_parse_varint_steps(s, n, k + 1);
    }
}

/// The VarString at the start of `s`: a VarInt that counts bytes, then that
/// many bytes of UTF-8.
pub open spec fn parse_varstring(s: Seq<u8>) -> Parsed<Seq<char>> {
    match parse_varint(s) {
        Parsed::Short { missing } => Parsed::Short { missing },
        Parsed::Invalid { error } => Parsed::Invalid { error },
        Parsed::Done { value: count, used } => {
            if s.len() < used + count {
                Parsed::Short { missing: (used + count - s.len()) as nat }
            } else if !valid_utf8(s.subrange(used as int, used + count)) {
                Parsed::Invalid { error: McError::NotUtf8 }
            } else {
                Parsed::Done {
                    value: decode_utf8(s.subrange(used as int, used + count)),
                    used: used + count as nat,
                }
            }
        },
    }
}

/// The bytes that encode `text` as a VarString.
pub open spec fn encode_varstring(text: Seq<char>) -> Seq<u8>
    recommends
        encode_utf8(text).len() <= u32::MAX,
{
    encode_varint(encode_utf8(text).len() as u32) + encode_utf8(text)
}

/// Reads the VarString that starts at `start` in `buf`.
pub fn read_varstring(buf: &[u8], start: usize) -> (r: Scan<String>)
    requires
        start <= buf.len(),
    ensures
        match parse_varstring(buf@.skip(start as int)) {
            Parsed::Done { value, used } => r matches Scan::Done { value: text, next } && text@
                == value && next == start + used,
            Parsed::Short { missing } => r matches Scan::Short { missing: m } && m == missing,
            Parsed::Invalid { error } => r == (Scan::<String>::Invalid { error }),
        },
        r matches Scan::Done { next, .. } ==> start < next <= buf.len(),
{
    let ghost s = buf@.skip(start as int);
    match read_varint(buf, start) {
        Scan::Short { missing } => Scan::Short { missing },
        Scan::Invalid { error } => Scan::Invalid { error },
        Scan::Done { value: count, next: from } => {
            let ghost used = from - start;
            assert(parse_varint(s) == (Parsed::Done { value: count, used: used as nat }));
            assert(s.len() == buf.len() - start);
            let available: usize = buf.len() - from;
            if available < count as usize {
                assert(s.len() < used + count);
                return Scan::Short { missing: count as usize - available };
            }
            let bytes = slice_to_vec(slice_subrange(buf, from, from + count as usize));
            assert(bytes@ =~= s.subrange(used, used + count));
            match string_from_utf8(bytes) {
                Some(text) => Scan::Done { value: text, next: from + count as usize },
                None => Scan::Invalid { error: McError::NotUtf8 },
            }
        },
    }
}

/// Appends `value` to `out` as a VarString.
pub fn write_varstring(out: &mut Vec<u8>, value: &str)
    requires
        encode_utf8(value@).len() <= u32::MAX,
    ensures
        final(out)@ == old(out)@ + encode_varstring(value@),
{
    let bytes = value.as_bytes();
    write_varint(out, bytes.len() as u32);
    out.extend_from_slice(bytes);
    assert(out@ =~= old(out)@ + encode_varstring(value@));
}

/// The two bytes that start `s`, read as a big-endian number.
pub open spec fn parse_port(s: Seq<u8>) -> Parsed<u16> {
    if s.len() < 2 {
        Parsed::Short { missing: (2 - s.len()) as nat }
    } else {
        Parsed::Done { value: (s[0] * 256 + s[1]) as u16, used: 2 }
    }
}

/// The two bytes that encode `port`, the high byte first.
pub open spec fn encode_port(port: u16) -> Seq<u8> {
    seq![(port / 256) as u8, (port % 256) as u8]
}

/// The index of the first NUL in `text`, or its length where it holds none.
pub open spec fn first_nul(text: Seq<char>) -> int
    decreases text.len(),
{
    if text.len() == 0 || text[0] == '\0' {
        0
    } else {
        1 + first_nul(text.skip(1))
    }
}

/// `text` up to its first NUL: the hostname without what a mod loader
/// appended to it.
pub open spec fn un_fml(text: Seq<char>) -> Seq<char> {
    text.take(first_nul(text))
}

proof fn lemma_first_nul_step(text: Seq<char>, k: int)
    requires
        0 <= k <= text.len(),
        forall|i: int| 0 <= i < k ==> text[i] != '\0',
    ensures
        first_nul(text) == k + first_nul(text.skip(k)),
    decreases k,
{
    if k == 0 {
        assert(text.skip(0) =~= text);
    } else {
        lemma_first_nul_step(text, k - 1);
        assert(text.skip(k - 1).skip(1) =~= text.skip(k));
        assert(text.skip(k - 1)[0] == text[k - 1]);
    }
}

/// The hostname in the address field of a handshake: the field up to its
/// first NUL, and the whole field where it holds none.
pub fn un_fml_address(address: &str) -> (host: String)
    ensures
        host@ == un_fml(address@),
{
    let chars = chars_of(address);
    let n = chars.len();
    let mut k: usize = 0;
    while k < n && chars[k] != '\0'
        invariant
            k <= n,
            n == address@.len(),
            chars@ == address@,
            forall|i: int| 0 <= i < k ==> address@[i] != '\0',
        decreases n - k,
    {
        k += 1;
    }
    proof {
        lemma_first_nul_step(address@, k as int);
        if k < n {
            assert(address@.skip(k as int)[0] == address@[k as int]);
        }
    }
    address.substring_char(0, k).to_owned()
}

/// Checks that a field holds the value that the protocol fixes for it.
pub fn validate(expect: u32, actual: u32, field_name: &'static str) -> (r: Result<(), McError>)
    ensures
        r is Ok <==> expect == actual,
        r matches Err(error) ==> error == (McError::WrongField {
            field: field_name,
            expected: expect,
            actual,
        }),
{
    if expect == actual {
        Ok(())
    } else {
        Err(McError::WrongField { field: field_name, expected: expect, actual })
    }
}

/// The packet that opens a connection: what the client asks for, and of whom.
#[derive(Debug, Clone, PartialEq, Eq)]
pub struct Handshake {
    /// The length that the client declared for the packet.
    pub length: u32,
    /// The packet's kind: zero for a handshake.
    pub packet_id: u32,
    /// The protocol version that the client speaks.
    pub version: u32,
    /// The address field as the client sent it, with what a mod loader
    /// appended to the hostname.
    pub host: String,
    /// The port that the client dialled.
    pub port: u16,
    /// The state that the client wants to enter next.
    pub next_state: u32,
}

/// A handshake as plain values.
pub struct HandshakeView {
    pub length: u32,
    pub packet_id: u32,
    pub version: u32,
    pub host: Seq<char>,
    pub port: u16,
    pub next_state: u32,
}

impl View for Handshake {
    type V = HandshakeView;

    open spec fn view(&self) -> HandshakeView {
        HandshakeView {
            length: self.length,
            packet_id: self.packet_id,
            version: self.version,
            host: self.host@,
            port: self.port,
            next_state: self.next_state,
        }
    }
}

/// The packet id of a handshake.
pub const HANDSHAKE_PACKET_ID: u32 = 0;

/// The handshake at the start of `s`: length, packet id, version, address,
/// port and next state, in that order. The packet id is checked as soon as
/// it is read.
pub open spec fn parse_handshake(s: Seq<u8>) -> Parsed<HandshakeView> {
    match parse_varint(s) {
        Parsed::Short { missing } => Parsed::Short { missing },
        Parsed::Invalid { error } => Parsed::Invalid { error },
        Parsed::Done { value: length, used: a } => match parse_varint(s.skip(a as int)) {
            Parsed::Short { missing } => Parsed::Short { missing },
            Parsed::Invalid { error } => Parsed::Invalid { error },
            Parsed::Done { value: packet_id, used: b } => if packet_id != 0 {
                Parsed::Invalid {
                    error: McError::WrongField { field: "packet ID", expected: 0, actual: packet_id },
                }
            } else {
                match parse_varint(s.skip((a + b) as int)) {
                    Parsed::Short { missing } => Parsed::Short { missing },
                    Parsed::Invalid { error } => Parsed::Invalid { error },
                    Parsed::Done { value: version, used: c } => match parse_varstring(
                        s.skip((a + b + c) as int),
                    ) {
                        Parsed::Short { missing } => Parsed::Short { missing },
                        Parsed::Invalid { error } => Parsed::Invalid { error },
                        Parsed::Done { value: host, used: d } => match parse_port(
                            s.skip((a + b + c + d) as int),
                        ) {
                            Parsed::Short { missing } => Parsed::Short { missing },
                            Parsed::Invalid { error } => Parsed::Invalid { error },
                            Parsed::Done { value: port, used: e } => match parse_varint(
                                s.skip((a + b + c + d + e) as int),
                            ) {
                                Parsed::Short { missing } => Parsed::Short { missing },
                                Parsed::Invalid { error } => Parsed::Invalid { error },
                                Parsed::Done { value: next_state, used: f } => Parsed::Done {
                                    value: HandshakeView {
                                        length,
                                        packet_id,
                                        version,
                                        host,
                                        port,
                                        next_state,
                                    },
                                    used: a + b + c + d + e + f,
                                },
                            },
                        },
                    },
                }
            },
        },
    }
}

/// The bytes that encode `h`, field by field.
pub open spec fn encode_handshake(h: HandshakeView) -> Seq<u8>
    recommends
        encode_utf8(h.host).len() <= u32::MAX,
{
    encode_varint(h.length) + encode_varint(h.packet_id) + encode_varint(h.version)
        + encode_varstring(h.host) + encode_port(h.port) + encode_varint(h.next_state)
}

/// Reads the two bytes of a port at `start` in `buf`.
pub fn read_port(buf: &[u8], start: usize) -> (r: Scan<u16>)
    requires
        start <= buf.len(),
    ensures
        match parse_port(buf@.skip(start as int)) {
            Parsed::Done { value, used } => r matches Scan::Done { value: v, next } && v == value
                && next == start + used,
            Parsed::Short { missing } => r matches Scan::Short { missing: m } && m == missing,
            Parsed::Invalid { error } => r == (Scan::<u16>::Invalid { error }),
        },
        r matches Scan::Done { next, .. } ==> start < next <= buf.len(),
{
    let available: usize = buf.len() - start;
    if available < 2 {
        return Scan::Short { missing: 2 - available };
    }
    let high: u16 = buf[start] as u16;
    let low: u16 = buf[start + 1] as u16;
    Scan::Done { value: high * 256 + low, next: start + 2 }
}

/// Appends the two bytes of `port` to `out`, the high byte first.
pub fn write_port(out: &mut Vec<u8>, port: u16)
    ensures
        final(out)@ == old(out)@ + encode_port(port),
{
    out.push((port / 256) as u8);
    out.push((port % 256) as u8);
    assert(out@ =~= old(out)@ + encode_port(port));
}

impl Handshake {
    /// Whether the address field is short enough for its length to be
    /// written as a VarInt.
    pub open spec fn wf(&self) -> bool {
        encode_utf8(self.host@).len() <= u32::MAX
    }

    /// Reads the handshake at the start of `buf`.
    pub fn read(buf: &[u8]) -> (r: Scan<Handshake>)
        ensures
            match parse_handshake(buf@) {
                Parsed::Done { value, used } => r matches Scan::Done { value: h, next } && h@
                    == value && next == used && h.wf(),
                Parsed::Short { missing } => r matches Scan::Short { missing: m } && m == missing,
                Parsed::Invalid { error } => r == (Scan::<Handshake>::Invalid { error }),
            },
            r matches Scan::Done { next, .. } ==> next <= buf.len(),
    {
        broadcast use vstd::utf8::decode_utf8_encode_utf8;

        assert(buf@.skip(0) =~= buf@);
        let (length, at) = match read_varint(buf, 0) {
            Scan::Done { value, next } => (value, next),
            Scan::Short { missing } => { return Scan::Short { missing }; },
            Scan::Invalid { error } => { return Scan::Invalid { error }; },
        };
        let (packet_id, at) = match read_varint(buf, at) {
            Scan::Done { value, next } => (value, next),
            Scan::Short { missing } => { return Scan::Short { missing }; },
            Scan::Invalid { error } => { return Scan::Invalid { error }; },
        };
        match validate(HANDSHAKE_PACKET_ID, packet_id, "packet ID") {
            Ok(()) => {},
            Err(error) => { return Scan::Invalid { error }; },
        }
        let (version, at) = match read_varint(buf, at) {
            Scan::Done { value, next } => (value, next),
            Scan::Short { missing } => { return Scan::Short { missing }; },
            Scan::Invalid { error } => { return Scan::Invalid { error }; },
        };
        let ghost host_at = at;
        let (host, at) = match read_varstring(buf, at) {
            Scan::Done { value, next } => (value, next),
            Scan::Short { missing } => { return Scan::Short { missing }; },
            Scan::Invalid { error } => { return Scan::Invalid { error }; },
        };
        let (port, at) = match read_port(buf, at) {
            Scan::Done { value, next } => (value, next),
            Scan::Short { missing } => { return Scan::Short { missing }; },
            Scan::Invalid { error } => { return Scan::Invalid { error }; },
        };
        let (next_state, at) = match read_varint(buf, at) {
            Scan::Done { value, next } => (value, next),
            Scan::Short { missing } => { return Scan::Short { missing }; },
            Scan::Invalid { error } => { return Scan::Invalid { error }; },
        };
        Scan::Done { value: Handshake { length, packet_id, version, host, port, next_state }, next: at }
    }

    /// The bytes that encode the handshake.
    pub fn to_bytes(&self) -> (bytes: Vec<u8>)
        requires
            self.wf(),
        ensures
            bytes@ == encode_handshake(self@),
    {
        let mut out: Vec<u8> = Vec::new();
        write_varint(&mut out, self.length);
        write_varint(&mut out, self.packet_id);
        write_varint(&mut out, self.version);
        write_varstring(&mut out, self.host.as_str());
        write_port(&mut out, self.port);
        write_varint(&mut out, self.next_state);
        assert(out@ =~= encode_handshake(self@));
        out
    }

    /// The destination that the handshake names: the hostname without what
    /// a mod loader appended, and the port.
    pub fn context(&self) -> (context: Context)
        ensures
            context.host@ == un_fml(self.host@),
            context.port == self.port,
            context.wf(),
    {
        Context::new(un_fml_address(self.host.as_str()), self.port)
    }
}

/// What the bytes read from a client so far say of its destination: the
/// hostname is the address field up to its first NUL, and what goes to the
/// upstream first is the handshake written anew, its address field whole.
pub open spec fn sniffed(s: Seq<u8>) -> Answer<McError> {
    match parse_handshake(s) {
        Parsed::Short { missing } => Answer::Need { missing },
        Parsed::Invalid { error } => Answer::Rejected { error },
        Parsed::Done { value, used } => Answer::Ready {
            host: un_fml(value.host),
            port: value.port,
            prefix: encode_handshake(value),
        },
    }
}

/// Looks for a handshake in the bytes read from a client so far.
pub fn sniff(buf: &[u8]) -> (r: Sniffed<McError>)
    ensures
        r@ == sniffed(buf@),
        r.wf(),
{
    match Handshake::read(buf) {
        Scan::Short { missing } => Sniffed::Need { missing },
        Scan::Invalid { error } => Sniffed::Rejected { error },
        Scan::Done { value, next: _ } => Sniffed::Ready {
            context: value.context(),
            prefix: value.to_bytes(),
        },
    }
}

/// Reading back what `encode_varstring` wrote gives the text that was
/// written, whatever follows it.
pub proof fn lemma_varstring_round_trip(text: Seq<char>, rest: Seq<u8>)
    requires
        encode_utf8(text).len() <= u32::MAX,
    ensures
        parse_varstring(encode_varstring(text) + rest) == (Parsed::Done {
            value: text,
            used: encode_varstring(text).len(),
        }),
{
    broadcast use vstd::utf8::encode_utf8_valid_utf8, vstd::utf8::encode_utf8_decode_utf8;

    let bytes = encode_utf8(text);
    let count = bytes.len() as u32;
    let head = encode_varint(count);
    let s = encode_varstring(text) + rest;
    assert(s =~= head + (bytes + rest));
    lemma_varint_round_trip(count, bytes + rest);
    assert(s.subrange(head.len() as int, head.len() + count) =~= bytes);
}

/// Reading back what `encode_port` wrote gives the port that was written.
pub proof fn lemma_port_round_trip(port: u16, rest: Seq<u8>)
    ensures
        parse_port(encode_port(port) + rest) == (Parsed::Done { value: port, used: 2 }),
{
    let s = encode_port(port) + rest;
    assert(s[0] == (port / 256) as u8);
    assert(s[1] == (port % 256) as u8);
}

proof fn lemma_concat_assoc(x: Seq<u8>, y: Seq<u8>, z: Seq<u8>)
    ensures
        (x + y) + z == x + (y + z),
{
    assert((x + y) + z =~= x + (y + z));
}

proof fn lemma_skip_past(s: Seq<u8>, at: int, x: Seq<u8>, y: Seq<u8>)
    requires
        0 <= at <= s.len(),
        s.skip(at) == x + y,
    ensures
        s.skip(at + x.len()) == y,
        at + x.len() <= s.len(),
{
    assert(s.skip(at).len() == x.len() + y.len());
    assert(s.skip(at + x.len()) =~= s.skip(at).skip(x.len() as int));
    assert((x + y).skip(x.len() as int) =~= y);
}

proof fn lemma_handshake_from_fields(
    s: Seq<u8>,
    h: HandshakeView,
    a: nat,
    b: nat,
    c: nat,
    d: nat,
    f: nat,
)
    requires
        h.packet_id == 0,
        parse_varint(s) == (Parsed::Done { value: h.length, used: a }),
        parse_varint(s.skip(a as int)) == (Parsed::Done { value: h.packet_id, used: b }),
        parse_varint(s.skip((a + b) as int)) == (Parsed::Done { value: h.version, used: c }),
        parse_varstring(s.skip((a + b + c) as int)) == (Parsed::Done { value: h.host, used: d }),
        parse_port(s.skip((a + b + c + d) as int)) == (Parsed::Done { value: h.port, used: 2 }),
        parse_varint(s.skip((a + b + c + d + 2) as int)) == (Parsed::Done {
            value: h.next_state,
            used: f,
        }),
    ensures
        parse_handshake(s) == (Parsed::Done { value: h, used: a + b + c + d + 2 + f }),
{
}

/// The bytes of a handshake that follow its first `k` fields, and `rest`.
spec fn tail_of(h: HandshakeView, rest: Seq<u8>, k: int) -> Seq<u8> {
    if k >= 6 {
        rest
    } else if k == 5 {
        encode_varint(h.next_state) + rest
    } else if k == 4 {
        encode_port(h.port) + (encode_varint(h.next_state) + rest)
    } else if k == 3 {
        encode_varstring(h.host) + (encode_port(h.port) + (encode_varint(h.next_state) + rest))
    } else if k == 2 {
        encode_varint(h.version) + (encode_varstring(h.host) + (encode_port(h.port) + (
        encode_varint(h.next_state) + rest)))
    } else if k == 1 {
        encode_varint(h.packet_id) + (encode_varint(h.version) + (encode_varstring(h.host) + (
        encode_port(h.port) + (encode_varint(h.next_state) + rest))))
    } else {
        encode_varint(h.length) + (encode_varint(h.packet_id) + (encode_varint(h.version) + (
        encode_varstring(h.host) + (encode_port(h.port) + (encode_varint(h.next_state) + rest)))))
    }
}

proof fn lemma_handshake_layout(h: HandshakeView, rest: Seq<u8>)
    ensures
        encode_handshake(h) + rest == tail_of(h, rest, 0),
{
    let a = encode_varint(h.length);
    let b = encode_varint(h.packet_id);
    let c = encode_varint(h.version);
    let d = encode_varstring(h.host);
    let e = encode_port(h.port);
    let f = encode_varint(h.next_state);
    lemma_concat_assoc(a + b + c + d + e, f, rest);
    lemma_concat_assoc(a + b + c + d, e, f + rest);
    lemma_concat_assoc(a + b + c, d, e + (f + rest));
    lemma_concat_assoc(a + b, c, d + (e + (f + rest)));
    lemma_concat_assoc(a, b, c + (d + (e + (f + rest))));
}

proof fn lemma_handshake_offsets(h: HandshakeView, rest: Seq<u8>, a: nat, b: nat, c: nat, d: nat)
    requires
        a == encode_varint(h.length).len(),
        b == encode_varint(h.packet_id).len(),
        c == encode_varint(h.version).len(),
        d == encode_varstring(h.host).len(),
    ensures
        tail_of(h, rest, 0).skip(a as int) == tail_of(h, rest, 1),
        tail_of(h, rest, 0).skip((a + b) as int) == tail_of(h, rest, 2),
        tail_of(h, rest, 0).skip((a + b + c) as int) == tail_of(h, rest, 3),
        tail_of(h, rest, 0).skip((a + b + c + d) as int) == tail_of(h, rest, 4),
        tail_of(h, rest, 0).skip((a + b + c + d + 2) as int) == tail_of(h, rest, 5),
{
    let s = tail_of(h, rest, 0);
    assert(s.skip(0) =~= s);
    lemma_skip_past(s, 0, encode_varint(h.length), tail_of(h, rest, 1));
    lemma_skip_past(s, a as int, encode_varint(h.packet_id), tail_of(h, rest, 2));
    lemma_skip_past(s, (a + b) as int, encode_varint(h.version), tail_of(h, rest, 3));
    lemma_skip_past(s, (a + b + c) as int, encode_varstring(h.host), tail_of(h, rest, 4));
    assert(encode_port(h.port).len() == 2);
    lemma_skip_past(s, (a + b + c + d) as int, encode_port(h.port), tail_of(h, rest, 5));
}

proof fn lemma_handshake_fields(h: HandshakeView, rest: Seq<u8>)
    requires
        encode_utf8(h.host).len() <= u32::MAX,
    ensures
        parse_varint(tail_of(h, rest, 0)) == (Parsed::Done {
            value: h.length,
            used: encode_varint(h.length).len(),
        }),
        parse_varint(tail_of(h, rest, 1)) == (Parsed::Done {
            value: h.packet_id,
            used: encode_varint(h.packet_id).len(),
        }),
        parse_varint(tail_of(h, rest, 2)) == (Parsed::Done {
            value: h.version,
            used: encode_varint(h.version).len(),
        }),
        parse_varstring(tail_of(h, rest, 3)) == (Parsed::Done {
            value: h.host,
            used: encode_varstring(h.host).len(),
        }),
        parse_port(tail_of(h, rest, 4)) == (Parsed::Done { value: h.port, used: 2 }),
        parse_varint(tail_of(h, rest, 5)) == (Parsed::Done {
            value: h.next_state,
            used: encode_varint(h.next_state).len(),
        }),
{
    lemma_varint_round_trip(h.length, tail_of(h, rest, 1));
    lemma_varint_round_trip(h.packet_id, tail_of(h, rest, 2));
    lemma_varint_round_trip(h.version, tail_of(h, rest, 3));
    lemma_varstring_round_trip(h.host, tail_of(h, rest, 4));
    lemma_port_round_trip(h.port, tail_of(h, rest, 5));
    lemma_varint_round_trip(h.next_state, rest);
}

/// A handshake that is written and read back is the handshake that was
/// written, and the reader stops where the writer did: an upstream that is
/// sent the rewritten handshake, and then what the client sends next, reads
/// the fields that the client sent.
pub proof fn lemma_handshake_round_trip(h: HandshakeView, rest: Seq<u8>)
    requires
        h.packet_id == 0,
        encode_utf8(h.host).len() <= u32::MAX,
    ensures
        parse_handshake(encode_handshake(h) + rest) == (Parsed::Done {
            value: h,
            used: encode_handshake(h).len(),
        }),
{
    let a = encode_varint(h.length).len();
    let b = encode_varint(h.packet_id).len();
    let c = encode_varint(h.version).len();
    let d = encode_varstring(h.host).len();
    let f = encode_varint(h.next_state).len();
    let s = tail_of(h, rest, 0);
    lemma_handshake_layout(h, rest);
    lemma_handshake_offsets(h, rest, a, b, c, d);
    lemma_handshake_fields(h, rest);
    lemma_handshake_from_fields(s, h, a, b, c, d, f);
    assert(encode_handshake(h).len() == a + b + c + d + 2 + f) by {
        assert(encode_port(h.port).len() == 2);
    }
}

proof fn lemma_varint_at_extend(s: Seq<u8>, e: Seq<u8>, k: int)
    requires
        0 <= k <= s.len(),
    ensures
        parse_varint_at(s, k) is Done ==> parse_varint_at(s + e, k) == parse_varint_at(s, k)
            && parse_varint_at(s, k)->used <= s.len(),
        parse_varint_at(s, k) is Invalid ==> parse_varint_at(s + e, k) == parse_varint_at(s, k),
        parse_varint_at(s, k) is Short ==> parse_varint_at(s, k)->missing == 1,
        parse_varint_at(s, k) is Short && parse_varint_at(s + e, k) is Done ==> parse_varint_at(
            s + e,
            k,
        )->used >= s.len() + 1,
    decreases 5 - k,
{
    let t = s + e;
    if k < 5 {
        if k < s.len() {
            assert(t[k] == s[k]);
            assert(t.take(k + 1) =~= s.take(k + 1));
            if s[k] >= 128 {
                lemma_varint_at_extend(s, e, k + 1);
            }
        } else {
            lemma_varint_at_skips(t, k);
        }
    }
}

proof fn lemma_varint_at_skips(t: Seq<u8>, k: int)
    requires
        0 <= k,
    ensures
        parse_varint_at(t, k) is Done ==> parse_varint_at(t, k)->used > k,
    decreases 5 - k,
{
    if k < 5 && k < t.len() && t[k] >= 128 {
        lemma_varint_at_skips(t, k + 1);
    }
}

/// More bytes do not change what a VarInt was read as, and a VarInt that
/// was short takes at least the byte that it asked for.
pub proof fn lemma_varint_extend(s: Seq<u8>, e: Seq<u8>)
    ensures
        parse_varint(s) is Done ==> parse_varint(s + e) == parse_varint(s) && parse_varint(s)->used
            <= s.len(),
        parse_varint(s) is Invalid ==> parse_varint(s + e) == parse_varint(s),
        parse_varint(s) is Short && parse_varint(s + e) is Done ==> parse_varint(s + e)->used
            >= s.len() + parse_varint(s)->missing,
{
    lemma_varint_at_extend(s, e, 0);
}

/// More bytes do not change what a VarString was read as, and a VarString
/// that was short takes at least the bytes that it asked for.
pub proof fn lemma_varstring_extend(s: Seq<u8>, e: Seq<u8>)
    ensures
        parse_varstring(s) is Done ==> parse_varstring(s + e) == parse_varstring(s)
            && parse_varstring(s)->used <= s.len(),
        parse_varstring(s) is Invalid ==> parse_varstring(s + e) == parse_varstring(s),
        parse_varstring(s) is Short && parse_varstring(s + e) is Done ==> parse_varstring(
            s + e,
        )->used >= s.len() + parse_varstring(s)->missing,
{
    let t = s + e;
    lemma_varint_extend(s, e);
    match parse_varint(s) {
        Parsed::Done { value: count, used } => {
            if s.len() >= used + count {
                assert(t.subrange(used as int, used + count) =~= s.subrange(
                    used as int,
                    used + count,
                ));
            }
        },
        _ => {},
    }
}

/// More bytes do not change what a port was read as, and a port that was
/// short takes the bytes that it asked for.
pub proof fn lemma_port_extend(s: Seq<u8>, e: Seq<u8>)
    ensures
        parse_port(s) is Done ==> parse_port(s + e) == parse_port(s) && parse_port(s)->used
            <= s.len(),
        parse_port(s) is Short && parse_port(s + e) is Done ==> parse_port(s + e)->used >= s.len()
            + parse_port(s)->missing,
{
    let t = s + e;
    if s.len() >= 2 {
        assert(t[0] == s[0] && t[1] == s[1]);
    }
}

proof fn lemma_skip_append(s: Seq<u8>, e: Seq<u8>, a: int)
    requires
        0 <= a <= s.len(),
    ensures
        (s + e).skip(a) == s.skip(a) + e,
        s.skip(a).len() == s.len() - a,
{
    assert((s + e).skip(a) =~= s.skip(a) + e);
}

/// A handshake that was short takes at least the bytes that it asked for:
/// where the bytes `s` left it short and the bytes `s + e` hold it whole, it
/// ends no earlier than `missing` bytes after `s`.
pub proof fn lemma_handshake_hint(s: Seq<u8>, e: Seq<u8>)
    requires
        parse_handshake(s) is Short,
        parse_handshake(s + e) is Done,
    ensures
        parse_handshake(s + e)->used >= s.len() + parse_handshake(s)->missing,
        parse_handshake(s + e)->used <= s.len() + e.len(),
{
    let t = s + e;
    lemma_handshake_used(t);
    lemma_varint_extend(s, e);
    if let Parsed::Done { value: _, used: a } = parse_varint(s) {
        let a = a as int;
        lemma_skip_append(s, e, a);
        lemma_varint_extend(s.skip(a), e);
        if let Parsed::Done { value: _, used: b } = parse_varint(s.skip(a)) {
            let b = a + b;
            lemma_skip_append(s, e, b);
            lemma_varint_extend(s.skip(b), e);
            if let Parsed::Done { value: _, used: c } = parse_varint(s.skip(b)) {
                let c = b + c;
                lemma_skip_append(s, e, c);
                lemma_varstring_extend(s.skip(c), e);
                if let Parsed::Done { value: _, used: d } = parse_varstring(s.skip(c)) {
                    let d = c + d;
                    lemma_skip_append(s, e, d);
                    lemma_port_extend(s.skip(d), e);
                    if let Parsed::Done { value: _, used: p } = parse_port(s.skip(d)) {
                        let p = d + p;
                        lemma_skip_append(s, e, p);
                        lemma_varint_extend(s.skip(p), e);
                    }
                }
            }
        }
    }
}

/// Bytes that come after an answer do not change it: a handshake that was
/// read is read the same whatever follows it, and bytes that were rejected
/// stay rejected.
pub proof fn lemma_handshake_is_final(s: Seq<u8>, e: Seq<u8>)
    requires
        !(parse_handshake(s) is Short),
    ensures
        parse_handshake(s + e) == parse_handshake(s),
{
    lemma_varint_extend(s, e);
    if let Parsed::Done { value: _, used: a } = parse_varint(s) {
        let a = a as int;
        lemma_skip_append(s, e, a);
        lemma_varint_extend(s.skip(a), e);
        if let Parsed::Done { value: _, used: b } = parse_varint(s.skip(a)) {
            let b = a + b;
            lemma_skip_append(s, e, b);
            lemma_varint_extend(s.skip(b), e);
            if let Parsed::Done { value: _, used: c } = parse_varint(s.skip(b)) {
                let c = b + c;
                lemma_skip_append(s, e, c);
                lemma_varstring_extend(s.skip(c), e);
                if let Parsed::Done { value: _, used: d } = parse_varstring(s.skip(c)) {
                    let d = c + d;
                    lemma_skip_append(s, e, d);
                    lemma_port_extend(s.skip(d), e);
                    if let Parsed::Done { value: _, used: p } = parse_port(s.skip(d)) {
                        let p = d + p;
                        lemma_skip_append(s, e, p);
                        lemma_varint_extend(s.skip(p), e);
                    }
                }
            }
        }
    }
}

/// A handshake that was read ends within the bytes that it was read from.
pub proof fn lemma_handshake_used(t: Seq<u8>)
    requires
        parse_handshake(t) is Done,
    ensures
        parse_handshake(t)->used <= t.len(),
{
    let none = Seq::<u8>::empty();
    assert(t + none =~= t);
    lemma_varint_extend(t, none);
    if let Parsed::Done { value: _, used: a } = parse_varint(t) {
        let a = a as int;
        lemma_skip_append(t, none, a);
        lemma_varint_extend(t.skip(a), none);
        if let Parsed::Done { value: _, used: b } = parse_varint(t.skip(a)) {
            let b = a + b;
            lemma_skip_append(t, none, b);
            lemma_varint_extend(t.skip(b), none);
            if let Parsed::Done { value: _, used: c } = parse_varint(t.skip(b)) {
                let c = b + c;
                lemma_skip_append(t, none, c);
                lemma_varstring_extend(t.skip(c), none);
                if let Parsed::Done { value: _, used: d } = parse_varstring(t.skip(c)) {
                    let d = c + d;
                    lemma_skip_append(t, none, d);
                    lemma_port_extend(t.skip(d), none);
                    if let Parsed::Done { value: _, used: p } = parse_port(t.skip(d)) {
                        let p = d + p;
                        lemma_skip_append(t, none, p);
                        lemma_varint_extend(t.skip(p), none);
                    }
                }
            }
        }
    }
}

/// A sniffer that is given the bytes that it asked for, and no more, has
/// read nothing beyond the handshake when it is ready: the handshake that
/// goes to the upstream stands for all that was taken from the client.
pub proof fn lemma_sniffer_reads_the_handshake_only(s: Seq<u8>, e: Seq<u8>)
    requires
        sniffed(s) matches Answer::Need { missing } && e.len() == missing,
        sniffed(s + e) is Ready,
    ensures
        parse_handshake(s + e) matches Parsed::Done { value, used } && used == (s + e).len()
            && sniffed(s + e)->prefix == encode_handshake(value) && parse_handshake(
            encode_handshake(value),
        ) == (Parsed::Done { value, used: encode_handshake(value).len() }),
{
    lemma_handshake_hint(s, e);
    let value = parse_handshake(s + e)->value;
    lemma_handshake_wf(s + e);
    lemma_handshake_round_trip(value, Seq::empty());
    assert(encode_handshake(value) + Seq::<u8>::empty() =~= encode_handshake(value));
}

/// A handshake that was read has a packet id of zero and an address short
/// enough to be written again.
pub proof fn lemma_handshake_wf(t: Seq<u8>)
    requires
        parse_handshake(t) is Done,
    ensures
        parse_handshake(t)->value.packet_id == 0,
        encode_utf8(parse_handshake(t)->value.host).len() <= u32::MAX,
{
    broadcast use vstd::utf8::decode_utf8_encode_utf8;

}

impl McError {
    /// The error in words.
    pub open spec fn text(self) -> Seq<char> {
        match self {
            McError::VarIntTooBig => "VarInt is too big"@,
            McError::NotUtf8 => "not an utf8 string"@,
            McError::WrongField { field, expected, actual } => "wrong Minecraft protocol field \""@
                + field@ + "\" value ("@ + decimal(expected as nat) + " expected, got "@ + decimal(
                actual as nat,
            ) + ")"@,
        }
    }

    /// The error in words.
    pub fn message(&self) -> (text: String)
        ensures
            text@ == self.text(),
    {
        match self {
            McError::VarIntTooBig => String::from_str("VarInt is too big"),
            McError::NotUtf8 => String::from_str("not an utf8 string"),
            McError::WrongField { field, expected, actual } => {
                let mut text = String::from_str("wrong Minecraft protocol field \"");
                text.append(field);
                text.append("\" value (");
                push_decimal(&mut text, *expected);
                text.append(" expected, got ");
                push_decimal(&mut text, *actual);
                text.append(")");
                assert(text@ =~= self.text());
                text
            },
        }
    }
}

} // verus!
