//! What a listener does with a connection: which sniffer reads its first
//! bytes, and what follows from the sniffer's answer.

use crate::args::ListenerKind;
use crate::chain::{resolution, resolve, Context, Resolution, ResolutionView};
use crate::config::Config;
use crate::http_proxy::HttpError;
use crate::mc_proxy::McError;
use crate::sniff::{Answer, Sniffed};
use crate::text::host_port;
use crate::tls_proxy::TlsError;
use vstd::prelude::*;
use vstd::slice::slice_to_vec;
use vstd::string::StringSliceAdditionalSpecFns;
use vstd::utf8::encode_utf8;

verus! {

/// Why the first bytes of a connection are not what its listener sniffs.
#[derive(Debug, Clone, PartialEq, Eq)]
pub enum SniffError {
    Http(HttpError),
    Tls(TlsError),
    Mc(McError),
}

/// What a sniffer of the kind `kind` answers on the bytes `s`.
pub open spec fn sniffed(kind: ListenerKind, s: Seq<u8>) -> Answer<SniffError> {
    match kind {
        ListenerKind::HTTP => match crate::http_proxy::sniffed(s) {
            Answer::Need { missing } => Answer::Need { missing },
            Answer::Rejected { error } => Answer::Rejected { error: SniffError::Http(error) },
            Answer::Ready { host, port, prefix } => Answer::Ready { host, port, prefix },
        },
        ListenerKind::TLS => match crate::tls_proxy::sniffed(s) {
            Answer::Need { missing } => Answer::Need { missing },
            Answer::Rejected { error } => Answer::Rejected { error: SniffError::Tls(error) },
            Answer::Ready { host, port, prefix } => Answer::Ready { host, port, prefix },
        },
        ListenerKind::MC => match crate::mc_proxy::sniffed(s) {
            Answer::Need { missing } => Answer::Need { missing },
            Answer::Rejected { error } => Answer::Rejected { error: SniffError::Mc(error) },
            Answer::Ready { host, port, prefix } => Answer::Ready { host, port, prefix },
        },
    }
}

/// Shows the bytes read from a client so far to the sniffer of the
/// listener's kind.
pub fn sniff(kind: ListenerKind, buf: &[u8]) -> (r: Sniffed<SniffError>)
    ensures
        r@ == sniffed(kind, buf@),
        r.wf(),
{
    match kind {
        ListenerKind::HTTP => match crate::http_proxy::sniff(buf) {
            Sniffed::Need { missing } => Sniffed::Need { missing },
            Sniffed::Rejected { error } => Sniffed::Rejected { error: SniffError::Http(error) },
            Sniffed::Ready { context, prefix } => Sniffed::Ready { context, prefix },
        },
        ListenerKind::TLS => match crate::tls_proxy::sniff(buf) {
            Sniffed::Need { missing } => Sniffed::Need { missing },
            Sniffed::Rejected { error } => Sniffed::Rejected { error: SniffError::Tls(error) },
            Sniffed::Ready { context, prefix } => Sniffed::Ready { context, prefix },
        },
        ListenerKind::MC => match crate::mc_proxy::sniff(buf) {
            Sniffed::Need { missing } => Sniffed::Need { missing },
            Sniffed::Rejected { error } => Sniffed::Rejected { error: SniffError::Mc(error) },
            Sniffed::Ready { context, prefix } => Sniffed::Ready { context, prefix },
        },
    }
}

/// What is sent to a client whose request is refused.
pub open spec fn refusal(error: SniffError) -> Seq<u8> {
    match error {
        SniffError::Http(_) => encode_utf8(
            "HTTP/1.1 400 Bad Request\r\ncontent-length: 0\r\nconnection: close\r\n\r\n"@,
        ),
        _ => Seq::empty(),
    }
}

/// What is sent to a client that is refused: a response with status 400
/// to one that spoke to an HTTP listener, nothing to any other.
pub fn respond(error: &SniffError) -> (reply: Vec<u8>)
    ensures
        reply@ == refusal(*error),
{
    match error {
        SniffError::Http(_) => slice_to_vec(
            "HTTP/1.1 400 Bad Request\r\ncontent-length: 0\r\nconnection: close\r\n\r\n".as_bytes(),
        ),
        _ => Vec::new(),
    }
}

/// What is to be done next for a connection.
pub enum Action {
    /// Read `missing` more bytes from the client, no more, and decide again.
    Read { missing: usize },
    /// Send `reply` to the client, if it is not empty, and close.
    Close { error: SniffError, reply: Vec<u8> },
    /// Open the upstream as the resolution says, write `prefix` to it, and
    /// copy in both directions until one side closes.
    Forward { context: Context, upstream: Resolution, prefix: Vec<u8> },
}

/// An action as plain values.
pub enum ActionView {
    Read { missing: nat },
    Close { error: SniffError, reply: Seq<u8> },
    Forward { host: Seq<char>, port: u16, upstream: ResolutionView, prefix: Seq<u8> },
}

impl View for Action {
    type V = ActionView;

    open spec fn view(&self) -> ActionView {
        match *self {
            Action::Read { missing } => ActionView::Read { missing: missing as nat },
            Action::Close { error, reply } => ActionView::Close { error, reply: reply@ },
            Action::Forward { context, upstream, prefix } => ActionView::Forward {
                host: context.host@,
                port: context.port,
                upstream: upstream@,
                prefix: prefix@,
            },
        }
    }
}

/// The context of a connection to `port` on `host`.
pub open spec fn context_of(context: Context, host: Seq<char>, port: u16) -> bool {
    context.host@ == host && context.port == port && context.address@ == host_port(host, port)
}

/// What is to be done for a connection of which `buf` has been read, on a
/// listener of the kind `kind` whose connections start with the chain
/// `chain`, under the configuration `config`.
pub fn decide(kind: ListenerKind, buf: &[u8], config: &Config, chain: &str) -> (action: Action)
    ensures
        match sniffed(kind, buf@) {
            Answer::Need { missing } => action@ == (ActionView::Read { missing }),
            Answer::Rejected { error } => action@ == (ActionView::Close {
                error,
                reply: refusal(error),
            }),
            Answer::Ready { host, port, prefix } => action matches Action::Forward {
                context,
                upstream,
                prefix: replay,
            } && context_of(context, host, port) && upstream@ == resolution(
                *config,
                context,
                chain@,
            ) && replay@ == prefix,
        },
{
    match sniff(kind, buf) {
        Sniffed::Need { missing } => Action::Read { missing },
        Sniffed::Rejected { error } => {
            let reply = respond(&error);
            Action::Close { error, reply }
        },
        Sniffed::Ready { context, prefix } => {
            let upstream = resolve(config, &context, chain);
            Action::Forward { context, upstream, prefix }
        },
    }
}

/// Nothing that is read from a client is lost. Where a sniffer is given
/// the bytes that it asked for, and with them is ready, then on a TLS
/// listener the upstream is sent all that was read, byte for byte; on a
/// Minecraft listener all that was read is one handshake, and the upstream
/// is sent a handshake that reads as the same. On an HTTP listener the
/// upstream is sent all that was read, however much that was.
pub proof fn lemma_nothing_read_is_lost(kind: ListenerKind, s: Seq<u8>, e: Seq<u8>)
    requires
        sniffed(kind, s) matches Answer::Need { missing } && (e.len() == missing || kind
            == ListenerKind::HTTP),
        sniffed(kind, s + e) is Ready,
    ensures
        kind != ListenerKind::MC ==> sniffed(kind, s + e)->prefix == s + e,
        kind == ListenerKind::MC ==> same_handshake(s + e, sniffed(kind, s + e)->prefix),
{
    match kind {
        ListenerKind::HTTP => {
            assert(crate::http_proxy::sniffed(s + e) is Ready);
            crate::http_proxy::lemma_prefix_is_what_was_read(s + e);
        },
        ListenerKind::TLS => {
            assert(crate::tls_proxy::sniffed(s) is Need);
            assert(crate::tls_proxy::sniffed(s + e) is Ready);
            crate::tls_proxy::lemma_sniffer_reads_the_record_only(s, e);
        },
        ListenerKind::MC => {
            assert(crate::mc_proxy::sniffed(s) is Need);
            assert(crate::mc_proxy::sniffed(s + e) is Ready);
            crate::mc_proxy::lemma_sniffer_reads_the_handshake_only(s, e);
        },
    }
}

/// Whether `read` is one whole handshake and `sent` one that holds the same
/// fields.
pub open spec fn same_handshake(read: Seq<u8>, sent: Seq<u8>) -> bool {
    &&& crate::mc_proxy::parse_handshake(read) matches crate::mc_proxy::Parsed::Done { value, used }
    &&& used == read.len()
    &&& crate::mc_proxy::parse_handshake(sent) == (crate::mc_proxy::Parsed::Done {
        value,
        used: sent.len(),
    })
}

impl SniffError {
    /// The error in words.
    pub open spec fn text(self) -> Seq<char> {
        match self {
            SniffError::Http(error) => error.text(),
            SniffError::Tls(error) => error.text(),
            SniffError::Mc(error) => error.text(),
        }
    }

    /// The error in words.
    pub fn message(&self) -> (text: String)
        ensures
            text@ == self.text(),
    {
        match self {
            SniffError::Http(error) => error.message(),
            SniffError::Tls(error) => error.message(),
            SniffError::Mc(error) => error.message(),
        }
    }
}

} // verus!
