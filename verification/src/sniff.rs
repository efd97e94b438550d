//! What every sniffer answers when it is shown the first bytes of a
//! connection.

use crate::chain::Context;
use vstd::prelude::*;

verus! {

/// A sniffer's answer on the bytes read from a client so far.
#[derive(Debug, Clone, PartialEq, Eq)]
pub enum Sniffed<E> {
    /// The destination is not known yet: read `missing` more bytes and ask
    /// again. Of a TLS or a Minecraft client no more may be read, for only
    /// what the sniffer hands over goes to the upstream.
    Need { missing: usize },
    /// The bytes are not what the protocol opens with: the connection is closed.
    Rejected { error: E },
    /// The destination, and the bytes to write to the upstream before any
    /// other byte is copied to it.
    Ready { context: Context, prefix: Vec<u8> },
}

/// A sniffer's answer as plain values.
pub enum Answer<E> {
    Need { missing: nat },
    Rejected { error: E },
    Ready { host: Seq<char>, port: u16, prefix: Seq<u8> },
}

impl<E> View for Sniffed<E> {
    type V = Answer<E>;

    open spec fn view(&self) -> Answer<E> {
        match *self {
            Sniffed::Need { missing } => Answer::Need { missing: missing as nat },
            Sniffed::Rejected { error } => Answer::Rejected { error },
            Sniffed::Ready { context, prefix } => Answer::Ready {
                host: context.host@,
                port: context.port,
                prefix: prefix@,
            },
        }
    }
}

impl<E> Sniffed<E> {
    /// Whether the context of a ready answer is well formed.
    pub open spec fn wf(&self) -> bool {
        *self matches Sniffed::Ready { context, .. } ==> context.wf()
    }
}

} // verus!
