//! The HTTP sniffer: finds the `Host` header in the head of an HTTP/1
//! request.

use crate::chain::Context;
use crate::sniff::{Answer, Sniffed};
use crate::text::string_from_utf8;
use core::str::FromStr;
use vstd::prelude::*;
use vstd::slice::{slice_subrange, slice_to_vec};
use vstd::string::StringExecFns;
use vstd::utf8::{decode_utf8, valid_utf8};

verus! {

/// Why the bytes of a client are no request that can be forwarded. Each is
/// answered with status 400.
#[derive(Debug, Clone, Copy, PartialEq, Eq, Structural)]
pub enum HttpError {
    /// The head does not end within the first `MAX_HEAD_LEN` bytes.
    HeadTooLong,
    /// The first line is not a method, a target and `HTTP/1.0` or
    /// `HTTP/1.1`, with one space between them.
    BadRequestLine,
    /// A header line has no colon, or no name before it.
    BadHeader,
    /// No header is named `Host`.
    NoHost,
    /// The `Host` header names no host that can be dialled.
    BadHost,
}

/// The most bytes that a request's head may take, its last empty line
/// included.
pub const MAX_HEAD_LEN: usize = 8192;

/// The port that a request is taken to where its `Host` header names none.
pub const HTTP_PORT: u16 = 80;

/// The status that answers a request that is not forwarded.
pub const BAD_REQUEST: u16 = 400;

/// Whether a line break starts at `i`.
pub open spec fn crlf_at(s: Seq<u8>, i: int) -> bool {
    0 <= i && i + 2 <= s.len() && s[i] == 13 && s[i + 1] == 10
}

/// The first place from `from` on where a line break starts, or the length
/// of `s` where there is none.
pub open spec fn find_crlf(s: Seq<u8>, from: int) -> int
    decreases s.len() - from,
{
    if from < 0 || from + 2 > s.len() {
        s.len() as int
    } else if crlf_at(s, from) {
        from
    } else {
        find_crlf(s, from + 1)
    }
}

/// The first place from `from` on where an empty line ends the head: where
/// two line breaks follow each other. The length of `s` where there is none.
pub open spec fn find_head_end(s: Seq<u8>, from: int) -> int
    decreases s.len() - from,
{
    if from < 0 || from + 4 > s.len() {
        s.len() as int
    } else if crlf_at(s, from) && crlf_at(s, from + 2) {
        from
    } else {
        find_head_end(s, from + 1)
    }
}

/// The first place where `byte` stands in `s`, or its length.
pub open spec fn find_byte(s: Seq<u8>, byte: u8) -> int
    decreases s.len(),
{
    if s.len() == 0 || s[0] == byte {
        0
    } else {
        1 + find_byte(s.skip(1), byte)
    }
}

/// Whether `b` is a printing character of ASCII, the space left out.
pub open spec fn visible(b: u8) -> bool {
    33 <= b <= 126
}

/// Whether every byte of `s` is visible.
pub open spec fn all_visible(s: Seq<u8>) -> bool {
    forall|i: int| 0 <= i < s.len() ==> visible(#[trigger] s[i])
}

/// `HTTP/1.`
pub open spec fn version_stem() -> Seq<u8> {
    seq![72u8, 84u8, 84u8, 80u8, 47u8, 49u8, 46u8]
}

/// Whether `line` is a request line of HTTP/1: a method, a target and the
/// version, all visible, with one space after the method and one before the
/// version.
pub open spec fn request_line_ok(line: Seq<u8>) -> bool {
    let a = find_byte(line, 32);
    let rest = line.skip(a + 1);
    let b = find_byte(rest, 32);
    let version = rest.skip(b + 1);
    &&& 0 < a < line.len()
    &&& all_visible(line.take(a))
    &&& 0 < b < rest.len()
    &&& all_visible(rest.take(b))
    &&& version.len() == 8
    &&& version.take(7) == version_stem()
    &&& (version[7] == 48 || version[7] == 49)
}

/// Whether `line` is a header line: a name of visible characters, a colon,
/// and a value.
pub open spec fn header_ok(line: Seq<u8>) -> bool {
    let colon = find_byte(line, 58);
    0 < colon < line.len() && all_visible(line.take(colon))
}

/// The name of a header line.
pub open spec fn header_name(line: Seq<u8>) -> Seq<u8> {
    line.take(find_byte(line, 58))
}

/// `b` in lower case, where it is a letter of ASCII.
pub open spec fn lower(b: u8) -> u8 {
    if 65 <= b <= 90 {
        (b + 32) as u8
    } else {
        b
    }
}

/// Whether `name` is `host`, in whatever case.
pub open spec fn is_host(name: Seq<u8>) -> bool {
    &&& name.len() == 4
    &&& lower(name[0]) == 104
    &&& lower(name[1]) == 111
    &&& lower(name[2]) == 115
    &&& lower(name[3]) == 116
}

/// Whether `b` is a space or a tab.
pub open spec fn blank(b: u8) -> bool {
    b == 32 || b == 9
}

/// `s` without the blanks that it starts with.
pub open spec fn trim_start(s: Seq<u8>) -> Seq<u8>
    decreases s.len(),
{
    if s.len() > 0 && blank(s[0]) {
        trim_start(s.skip(1))
    } else {
        s
    }
}

/// `s` without the blanks that it ends with.
pub open spec fn trim_end(s: Seq<u8>) -> Seq<u8>
    decreases s.len(),
{
    if s.len() > 0 && blank(s.last()) {
        trim_end(s.drop_last())
    } else {
        s
    }
}

/// The value of a header line: what follows the colon, without the blanks
/// around it.
pub open spec fn header_value(line: Seq<u8>) -> Seq<u8> {
    trim_end(trim_start(line.skip(find_byte(line, 58) + 1)))
}

/// The value of the first `Host` header among the header lines of `s` from
/// `from` up to `end`, each ended by a line break: `Ok(None)` where no line
/// is named `Host`.
pub open spec fn host_header(s: Seq<u8>, from: int, end: int) -> Result<Option<Seq<u8>>, HttpError>
    decreases end - from,
{
    if from >= end || from < 0 {
        Ok(None)
    } else {
        let stop = find_crlf(s, from);
        let line = s.subrange(from, stop);
        if stop + 2 > end || stop < from {
            Err(HttpError::BadHeader)
        } else if !header_ok(line) {
            Err(HttpError::BadHeader)
        } else if is_host(header_name(line)) {
            Ok(Some(header_value(line)))
        } else {
            host_header(s, stop + 2, end)
        }
    }
}

/// What the URI `uri` names as its host and its port, as `hyper::Uri` reads
/// it: nothing where it is no URI, or one without a host.
pub uninterp spec fn uri_authority(uri: Seq<char>) -> Option<(Seq<char>, Option<u16>)>;

/// `hyper::Uri::from_str`, then `host` and `port_u16` of the URI.
#[verifier::external_body]
fn authority_of(uri: &str) -> (authority: Option<(String, Option<u16>)>)
    ensures
        match uri_authority(uri@) {
            Some((host, port)) => authority matches Some((h, p)) && h@ == host && p == port,
            None => authority is None,
        },
{
    let uri = hyper::Uri::from_str(uri).ok()?;
    let host = uri.host()?.to_owned();
    Some((host, uri.port_u16()))
}

/// What the value of a `Host` header names: the value is read as the
/// authority of a URI, behind a scheme.
pub open spec fn host_authority(value: Seq<char>) -> Option<(Seq<char>, Option<u16>)> {
    uri_authority("proto://"@ + value)
}

/// Reads the value of a `Host` header as the authority of a URI.
fn read_authority(value: &str) -> (authority: Option<(String, Option<u16>)>)
    ensures
        match host_authority(value@) {
            Some((host, port)) => authority matches Some((h, p)) && h@ == host && p == port,
            None => authority is None,
        },
{
    let mut uri = "proto://".to_owned();
    uri.append(value);
    authority_of(uri.as_str())
}

/// The answer on a request whose `Host` header, if it has one, has the
/// value `value`.
pub open spec fn host_answer(value: Option<Seq<u8>>, prefix: Seq<u8>) -> Answer<HttpError> {
    match value {
        None => Answer::Rejected { error: HttpError::NoHost },
        Some(bytes) => if !valid_utf8(bytes) {
            Answer::Rejected { error: HttpError::BadHost }
        } else {
            authority_answer(host_authority(decode_utf8(bytes)), prefix)
        },
    }
}

/// The answer on a request whose `Host` header names `authority`: the port
/// is 80 where the header names none.
pub open spec fn authority_answer(
    authority: Option<(Seq<char>, Option<u16>)>,
    prefix: Seq<u8>,
) -> Answer<HttpError> {
    match authority {
        None => Answer::Rejected { error: HttpError::BadHost },
        Some((host, port)) => Answer::Ready {
            host,
            port: match port {
                Some(p) => p,
                None => 80,
            },
            prefix,
        },
    }
}

/// What the bytes read from a client so far say of its destination. Nothing
/// is decided before the head is whole; then its first line has to be a
/// request line and each further line a header, and the first `Host` header
/// names the destination. All that was read goes to the upstream.
pub open spec fn sniffed(s: Seq<u8>) -> Answer<HttpError> {
    let end = find_head_end(s, 0);
    if end + 4 > s.len() || end + 4 > MAX_HEAD_LEN {
        if s.len() >= MAX_HEAD_LEN {
            Answer::Rejected { error: HttpError::HeadTooLong }
        } else {
            Answer::Need { missing: 1 }
        }
    } else {
        let first = find_crlf(s, 0);
        if !request_line_ok(s.take(first)) {
            Answer::Rejected { error: HttpError::BadRequestLine }
        } else {
            match host_header(s, first + 2, end + 2) {
                Err(error) => Answer::Rejected { error },
                Ok(value) => host_answer(value, s),
            }
        }
    }
}

proof fn lemma_find_byte(s: Seq<u8>, byte: u8, k: int)
    requires
        0 <= k <= s.len(),
        forall|j: int| 0 <= j < k ==> s[j] != byte,
        k == s.len() || s[k] == byte,
    ensures
        find_byte(s, byte) == k,
    decreases k,
{
    if k > 0 {
        assert forall|j: int| 0 <= j < k - 1 implies s.skip(1)[j] != byte by {
            assert(s.skip(1)[j] == s[j + 1]);
        }
        lemma_find_byte(s.skip(1), byte, k - 1);
    }
}

proof fn lemma_trim_start(s: Seq<u8>, k: int)
    requires
        0 <= k <= s.len(),
        forall|j: int| 0 <= j < k ==> blank(s[j]),
        k == s.len() || !blank(s[k]),
    ensures
        trim_start(s) == s.skip(k),
    decreases k,
{
    if k > 0 {
        assert forall|j: int| 0 <= j < k - 1 implies blank(s.skip(1)[j]) by {
            assert(s.skip(1)[j] == s[j + 1]);
        }
        lemma_trim_start(s.skip(1), k - 1);
        assert(s.skip(1).skip(k - 1) =~= s.skip(k));
    } else {
        assert(s.skip(0) =~= s);
    }
}

proof fn lemma_trim_end(s: Seq<u8>, k: int)
    requires
        0 <= k <= s.len(),
        forall|j: int| k <= j < s.len() ==> blank(s[j]),
        k == 0 || !blank(s[k - 1]),
    ensures
        trim_end(s) == s.take(k),
    decreases s.len() - k,
{
    if k < s.len() {
        assert forall|j: int| k <= j < s.drop_last().len() implies blank(s.drop_last()[j]) by {
            assert(s.drop_last()[j] == s[j]);
        }
        lemma_trim_end(s.drop_last(), k);
        assert(s.drop_last().take(k) =~= s.take(k));
    } else {
        assert(s.take(k) =~= s);
    }
}

/// Finds the first line break in `buf` from `from` on.
fn scan_crlf(buf: &[u8], from: usize) -> (at: usize)
    requires
        from <= buf@.len(),
    ensures
        at == find_crlf(buf@, from as int),
        from <= at <= buf@.len(),
        at < buf@.len() ==> crlf_at(buf@, at as int),
{
    let mut i: usize = from;
    while i < buf.len() && buf.len() - i >= 2
        invariant
            from <= i <= buf@.len(),
            find_crlf(buf@, i as int) == find_crlf(buf@, from as int),
        decreases buf@.len() - i,
    {
        if buf[i] == 13 && buf[i + 1] == 10 {
            return i;
        }
        i += 1;
    }
    buf.len()
}

/// Finds the empty line that ends the head in `buf`.
fn scan_head_end(buf: &[u8]) -> (at: usize)
    ensures
        at == find_head_end(buf@, 0),
        at <= buf@.len(),
        at + 4 <= buf@.len() ==> crlf_at(buf@, at as int) && crlf_at(buf@, at + 2),
{
    let mut i: usize = 0;
    while i < buf.len() && buf.len() - i >= 4
        invariant
            i <= buf@.len(),
            find_head_end(buf@, i as int) == find_head_end(buf@, 0),
        decreases buf@.len() - i,
    {
        if buf[i] == 13 && buf[i + 1] == 10 && buf[i + 2] == 13 && buf[i + 3] == 10 {
            return i;
        }
        i += 1;
    }
    buf.len()
}

/// Finds the first `byte` in `buf` between `from` and `to`.
fn scan_byte(buf: &[u8], from: usize, to: usize, byte: u8) -> (at: usize)
    requires
        from <= to <= buf@.len(),
    ensures
        at == from + find_byte(buf@.subrange(from as int, to as int), byte),
        from <= at <= to,
        at < to ==> buf@[at as int] == byte,
{
    let ghost s = buf@.subrange(from as int, to as int);
    let mut i: usize = from;
    while i < to
        invariant
            from <= i <= to,
            to <= buf@.len(),
            s == buf@.subrange(from as int, to as int),
            forall|j: int| 0 <= j < i - from ==> s[j] != byte,
        decreases to - i,
    {
        if buf[i] == byte {
            proof {
                lemma_find_byte(s, byte, i - from);
            }
            return i;
        }
        i += 1;
    }
    proof {
        lemma_find_byte(s, byte, to - from);
    }
    to
}

/// Whether every byte of `buf` between `from` and `to` is visible.
fn visible_between(buf: &[u8], from: usize, to: usize) -> (all: bool)
    requires
        from <= to <= buf@.len(),
    ensures
        all == all_visible(buf@.subrange(from as int, to as int)),
{
    let ghost s = buf@.subrange(from as int, to as int);
    let mut i: usize = from;
    while i < to
        invariant
            from <= i <= to,
            to <= buf@.len(),
            s == buf@.subrange(from as int, to as int),
            forall|j: int| 0 <= j < i - from ==> visible(#[trigger] s[j]),
        decreases to - i,
    {
        if buf[i] < 33 || buf[i] > 126 {
            assert(!visible(s[i - from]));
            return false;
        }
        i += 1;
    }
    true
}

/// Whether the first `end` bytes of `buf` are a request line.
fn check_request_line(buf: &[u8], end: usize) -> (ok: bool)
    requires
        end <= buf@.len(),
    ensures
        ok == request_line_ok(buf@.take(end as int)),
{
    let ghost line = buf@.take(end as int);
    assert(line =~= buf@.subrange(0, end as int));
    let a = scan_byte(buf, 0, end, 32);
    if a == 0 || a >= end {
        return false;
    }
    assert(line.take(a as int) =~= buf@.subrange(0, a as int));
    if !visible_between(buf, 0, a) {
        return false;
    }
    let ghost rest = line.skip(a + 1);
    assert(rest =~= buf@.subrange(a + 1, end as int));
    let b = scan_byte(buf, a + 1, end, 32);
    if b == a + 1 || b >= end {
        return false;
    }
    assert(rest.take(b - a - 1) =~= buf@.subrange(a + 1, b as int));
    if !visible_between(buf, a + 1, b) {
        return false;
    }
    let ghost version = rest.skip(b - a);
    assert(version =~= buf@.subrange(b + 1, end as int));
    if end - b - 1 != 8 {
        return false;
    }
    let v = b + 1;
    let stem = buf[v] == 72 && buf[v + 1] == 84 && buf[v + 2] == 84 && buf[v + 3] == 80 && buf[v
        + 4] == 47 && buf[v + 5] == 49 && buf[v + 6] == 46;
    proof {
        if stem {
            assert(version.take(7) =~= version_stem());
        } else {
            let t = version.take(7);
            assert(t[0] == buf@[v as int] && t[1] == buf@[v + 1] && t[2] == buf@[v + 2] && t[3]
                == buf@[v + 3] && t[4] == buf@[v + 4] && t[5] == buf@[v + 5] && t[6] == buf@[v
                + 6]);
        }
    }
    stem && (buf[v + 7] == 48 || buf[v + 7] == 49)
}

/// `b` in lower case, where it is a letter of ASCII.
fn lower_case(b: u8) -> (l: u8)
    ensures
        l == lower(b),
{
    if 65 <= b && b <= 90 {
        b + 32
    } else {
        b
    }
}

/// The value of the header line that `buf` holds between `from` and `stop`,
/// where the line is named `Host`.
fn host_line_value(buf: &[u8], from: usize, stop: usize) -> (r: Result<Option<Vec<u8>>, HttpError>)
    requires
        from <= stop <= buf@.len(),
    ensures
        ({
            let line = buf@.subrange(from as int, stop as int);
            if !header_ok(line) {
                r == Err::<Option<Vec<u8>>, HttpError>(HttpError::BadHeader)
            } else if is_host(header_name(line)) {
                r matches Ok(Some(value)) && value@ == header_value(line)
            } else {
                r matches Ok(None)
            }
        }),
{
    let ghost line = buf@.subrange(from as int, stop as int);
    let colon = scan_byte(buf, from, stop, 58);
    if colon == from || colon >= stop {
        return Err(HttpError::BadHeader);
    }
    assert(line.take(colon - from) =~= buf@.subrange(from as int, colon as int));
    if !visible_between(buf, from, colon) {
        return Err(HttpError::BadHeader);
    }
    let named_host = colon - from == 4 && lower_case(buf[from]) == 104 && lower_case(buf[from + 1])
        == 111 && lower_case(buf[from + 2]) == 115 && lower_case(buf[from + 3]) == 116;
    proof {
        let name = header_name(line);
        if colon - from == 4 {
            assert(name[0] == buf@[from as int] && name[1] == buf@[from + 1] && name[2] == buf@[from
                + 2] && name[3] == buf@[from + 3]);
        }
    }
    if !named_host {
        return Ok(None);
    }
    let ghost raw = line.skip(colon - from + 1);
    assert(raw =~= buf@.subrange(colon + 1, stop as int));
    let mut a: usize = colon + 1;
    while a < stop && (buf[a] == 32 || buf[a] == 9)
        invariant
            colon + 1 <= a <= stop,
            stop <= buf@.len(),
            raw == buf@.subrange(colon + 1, stop as int),
            forall|j: int| 0 <= j < a - colon - 1 ==> blank(raw[j]),
        decreases stop - a,
    {
        a += 1;
    }
    proof {
        lemma_trim_start(raw, a - colon - 1);
    }
    let ghost started = raw.skip(a - colon - 1);
    assert(started =~= buf@.subrange(a as int, stop as int));
    let mut b: usize = stop;
    while b > a && (buf[b - 1] == 32 || buf[b - 1] == 9)
        invariant
            a <= b <= stop,
            stop <= buf@.len(),
            started == buf@.subrange(a as int, stop as int),
            forall|j: int| b - a <= j < stop - a ==> blank(started[j]),
        decreases b,
    {
        b -= 1;
    }
    proof {
        lemma_trim_end(started, b - a);
        assert(started.take(b - a) =~= buf@.subrange(a as int, b as int));
    }
    Ok(Some(slice_to_vec(slice_subrange(buf, a, b))))
}

/// The value of the first `Host` header among the header lines of `buf`
/// between `from` and `end`.
fn find_host_header(buf: &[u8], from: usize, end: usize) -> (r: Result<Option<Vec<u8>>, HttpError>)
    requires
        from <= buf@.len(),
        end <= buf@.len(),
    ensures
        match host_header(buf@, from as int, end as int) {
            Ok(Some(value)) => r matches Ok(Some(found)) && found@ == value,
            Ok(None) => r matches Ok(None),
            Err(error) => r == Err::<Option<Vec<u8>>, HttpError>(error),
        },
{
    let mut at: usize = from;
    while at < end
        invariant
            at <= buf@.len(),
            end <= buf@.len(),
            host_header(buf@, at as int, end as int) == host_header(buf@, from as int, end as int),
        decreases end - at,
    {
        let stop = scan_crlf(buf, at);
        if stop > end || end - stop < 2 {
            return Err(HttpError::BadHeader);
        }
        match host_line_value(buf, at, stop) {
            Err(error) => {
                return Err(error);
            },
            Ok(Some(value)) => {
                return Ok(Some(value));
            },
            Ok(None) => {},
        }
        at = stop + 2;
    }
    Ok(None)
}

/// The answer on a request whose `Host` header names `authority`, and of
/// which `prefix` was read.
pub fn destination(authority: Option<(String, Option<u16>)>, prefix: Vec<u8>) -> (r: Sniffed<
    HttpError,
>)
    ensures
        r@ == authority_answer(
            match authority {
                Some((host, port)) => Some((host@, port)),
                None => None,
            },
            prefix@,
        ),
        r.wf(),
{
    match authority {
        None => Sniffed::Rejected { error: HttpError::BadHost },
        Some((host, port)) => {
            let port = match port {
                Some(p) => p,
                None => HTTP_PORT,
            };
            Sniffed::Ready { context: Context::new(host, port), prefix }
        },
    }
}

/// Looks for the head of a request in the bytes read from a client so far,
/// and in it for the `Host` header. As all that was read goes to the
/// upstream, a caller may read more at a time than is asked for.
pub fn sniff(buf: &[u8]) -> (r: Sniffed<HttpError>)
    ensures
        r@ == sniffed(buf@),
        r.wf(),
{
    let end = scan_head_end(buf);
    if buf.len() - end < 4 || end > MAX_HEAD_LEN - 4 {
        if buf.len() >= MAX_HEAD_LEN {
            return Sniffed::Rejected { error: HttpError::HeadTooLong };
        }
        return Sniffed::Need { missing: 1 };
    }
    let first = scan_crlf(buf, 0);
    assert(first <= end) by {
        lemma_crlf_before(buf@, 0, end as int);
    }
    if !check_request_line(buf, first) {
        return Sniffed::Rejected { error: HttpError::BadRequestLine };
    }
    let value = match find_host_header(buf, first + 2, end + 2) {
        Err(error) => {
            return Sniffed::Rejected { error };
        },
        Ok(None) => {
            return Sniffed::Rejected { error: HttpError::NoHost };
        },
        Ok(Some(value)) => value,
    };
    let text = match string_from_utf8(value) {
        None => {
            return Sniffed::Rejected { error: HttpError::BadHost };
        },
        Some(text) => text,
    };
    let prefix = slice_to_vec(buf);
    destination(read_authority(text.as_str()), prefix)
}

proof fn lemma_crlf_before(s: Seq<u8>, from: int, at: int)
    requires
        0 <= from <= at,
        crlf_at(s, at),
    ensures
        find_crlf(s, from) <= at,
    decreases at - from,
{
    if from < at && !crlf_at(s, from) {
        lemma_crlf_before(s, from + 1, at);
    }
}

proof fn lemma_head_end_extend(s: Seq<u8>, e: Seq<u8>, from: int)
    requires
        0 <= from,
    ensures
        find_head_end(s, from) + 4 <= s.len() ==> find_head_end(s + e, from) == find_head_end(
            s,
            from,
        ),
        find_head_end(s, from) + 4 > s.len() ==> find_head_end(s + e, from) + 4 > s.len(),
    decreases s.len() + e.len() - from,
{
    let t = s + e;
    if from + 4 <= s.len() {
        assert(t[from] == s[from] && t[from + 1] == s[from + 1] && t[from + 2] == s[from + 2]
            && t[from + 3] == s[from + 3]);
        if !(crlf_at(s, from) && crlf_at(s, from + 2)) {
            lemma_head_end_extend(s, e, from + 1);
        }
    } else {
        lemma_head_end_from(t, from);
    }
}

proof fn lemma_head_end_from(t: Seq<u8>, from: int)
    requires
        0 <= from,
    ensures
        from <= find_head_end(t, from) || find_head_end(t, from) == t.len(),
        find_head_end(t, from) + 4 <= t.len() ==> crlf_at(t, find_head_end(t, from)) && crlf_at(
            t,
            find_head_end(t, from) + 2,
        ),
    decreases t.len() - from,
{
    if from + 4 <= t.len() && !(crlf_at(t, from) && crlf_at(t, from + 2)) {
        lemma_head_end_from(t, from + 1);
    }
}

proof fn lemma_crlf_from(t: Seq<u8>, from: int)
    requires
        0 <= from,
    ensures
        find_crlf(t, from) >= from || find_crlf(t, from) == t.len(),
    decreases t.len() - from,
{
    if from + 2 <= t.len() && !crlf_at(t, from) {
        lemma_crlf_from(t, from + 1);
    }
}

proof fn lemma_crlf_extend(s: Seq<u8>, e: Seq<u8>, from: int)
    requires
        0 <= from,
    ensures
        find_crlf(s, from) + 2 <= s.len() ==> find_crlf(s + e, from) == find_crlf(s, from),
        find_crlf(s, from) + 2 > s.len() ==> find_crlf(s + e, from) + 2 > s.len(),
    decreases s.len() + e.len() - from,
{
    let t = s + e;
    if from + 2 <= s.len() {
        assert(t[from] == s[from] && t[from + 1] == s[from + 1]);
        if !crlf_at(s, from) {
            lemma_crlf_extend(s, e, from + 1);
        }
    } else {
        lemma_crlf_from(t, from);
    }
}

proof fn lemma_host_header_extend(s: Seq<u8>, e: Seq<u8>, from: int, end: int)
    requires
        end <= s.len(),
    ensures
        host_header(s + e, from, end) == host_header(s, from, end),
    decreases end - from,
{
    let t = s + e;
    if 0 <= from < end {
        lemma_crlf_extend(s, e, from);
        lemma_crlf_from(s, from);
        let stop = find_crlf(s, from);
        if stop + 2 <= end {
            assert(t.subrange(from, stop) =~= s.subrange(from, stop));
            lemma_host_header_extend(s, e, stop + 2, end);
        }
    }
}

/// Bytes that come after an answer do not change where a request goes: a
/// request that was ready stays ready for the same host and port, with the
/// further bytes forwarded too, and one that was refused stays refused.
pub proof fn lemma_answer_is_final(s: Seq<u8>, e: Seq<u8>)
    requires
        !(sniffed(s) is Need),
    ensures
        match sniffed(s) {
            Answer::Ready { host, port, prefix } => sniffed(s + e) == (Answer::<
                HttpError,
            >::Ready { host, port, prefix: s + e }),
            answer => sniffed(s + e) == answer,
        },
{
    let t = s + e;
    let end = find_head_end(s, 0);
    lemma_head_end_extend(s, e, 0);
    lemma_head_end_from(s, 0);
    if end + 4 <= s.len() && end + 4 <= MAX_HEAD_LEN {
        lemma_crlf_extend(s, e, 0);
        lemma_crlf_before(s, 0, end);
        lemma_crlf_from(s, 0);
        let first = find_crlf(s, 0);
        assert(t.take(first) =~= s.take(first));
        lemma_host_header_extend(s, e, first + 2, end + 2);
    }
}

/// All that was read of a request goes to the upstream.
pub proof fn lemma_prefix_is_what_was_read(s: Seq<u8>)
    requires
        sniffed(s) is Ready,
    ensures
        sniffed(s)->prefix == s,
{
}

impl HttpError {
    /// The error in words.
    pub open spec fn text(self) -> Seq<char> {
        match self {
            HttpError::HeadTooLong => "the head of the request is too long"@,
            HttpError::BadRequestLine => "the request line is malformed"@,
            HttpError::BadHeader => "a header line is malformed"@,
            HttpError::NoHost => "no Host header in http request; drop"@,
            HttpError::BadHost => "bad Host header; drop"@,
        }
    }

    /// The error in words.
    pub fn message(&self) -> (text: String)
        ensures
            text@ == self.text(),
    {
        match self {
            HttpError::HeadTooLong => "the head of the request is too long".to_owned(),
            HttpError::BadRequestLine => "the request line is malformed".to_owned(),
            HttpError::BadHeader => "a header line is malformed".to_owned(),
            HttpError::NoHost => "no Host header in http request; drop".to_owned(),
            HttpError::BadHost => "bad Host header; drop".to_owned(),
        }
    }

    /// The status that answers a request that fails so.
    pub fn status(&self) -> (status: u16)
        ensures
            status == 400,
    {
        BAD_REQUEST
    }
}

} // verus!
