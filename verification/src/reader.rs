//! What a connection's reader makes of one bounded read: a message to forward,
//! or the end of the connection.

use vstd::prelude::*;
use vstd::utf8::valid_utf8;
use crate::envelope::{ClientId, Envelope, EnvelopeView, MAX_PAYLOAD};

verus! {

/// How the bytes of one read become a payload.
#[derive(Clone, Copy, Debug, PartialEq, Eq, Structural)]
pub enum Framing {
    /// The bytes read are the payload, whatever they are.
    Verbatim,
    /// The bytes read are the payload only if they are well-formed UTF-8;
    /// otherwise the connection ends.
    Text,
}

/// What the transport reported for one read into a buffer.
#[derive(Clone, Copy, Debug, PartialEq, Eq, Structural)]
pub enum ReadOutcome {
    /// The read filled this many bytes at the front of the buffer.
    Received(usize),
    /// The read failed.
    Failed,
}

/// Why a connection ends. Each of these ends that one connection and nothing
/// else.
#[derive(Clone, Copy, Debug, PartialEq, Eq, Structural)]
pub enum Disconnect {
    /// The peer closed the connection: a read of zero bytes.
    EndOfStream,
    /// The read failed.
    ReadFailed,
    /// More bytes were reported than the buffer holds or than one message may
    /// carry.
    Oversized,
    /// Text framing was asked for and the bytes are not well-formed UTF-8.
    Malformed,
    /// The ingestion queue no longer takes messages.
    QueueClosed,
    /// The sender has no entry in the registry.
    NotRegistered,
}

/// The payload that one read yields, or the reason the connection ends.
///
/// A successful read of `n` bytes yields exactly the first `n` bytes of the
/// buffer: nothing is scanned for, and what lies behind them is ignored.
pub open spec fn framed(framing: Framing, buf: Seq<u8>, outcome: ReadOutcome) -> Result<
    Seq<u8>,
    Disconnect,
> {
    match outcome {
        ReadOutcome::Failed => Err(Disconnect::ReadFailed),
        ReadOutcome::Received(n) => {
            if n == 0 {
                Err(Disconnect::EndOfStream)
            } else if n > buf.len() || n > MAX_PAYLOAD {
                Err(Disconnect::Oversized)
            } else if framing == Framing::Text && !valid_utf8(buf.subrange(0, n as int)) {
                Err(Disconnect::Malformed)
            } else {
                Ok(buf.subrange(0, n as int))
            }
        },
    }
}

/// The envelope that one read of `sender`'s connection yields, or the reason
/// the connection ends.
pub open spec fn framed_envelope(
    sender: ClientId,
    framing: Framing,
    buf: Seq<u8>,
    outcome: ReadOutcome,
) -> Result<EnvelopeView, Disconnect> {
    match framed(framing, buf, outcome) {
        Ok(payload) => Ok(EnvelopeView { sender, payload }),
        Err(reason) => Err(reason),
    }
}

/// Calls `core::str::from_utf8` and reports whether it accepted the bytes.
/// Trusted: that function returns `Ok` exactly for well-formed UTF-8.
#[verifier::external_body]
fn is_utf8(bytes: &[u8]) -> (ok: bool)
    ensures
        ok == valid_utf8(bytes@),
{
    core::str::from_utf8(bytes).is_ok()
}

/// Turns one read of `sender`'s connection into the envelope to forward, or
/// into the reason to end the connection.
pub fn frame(sender: ClientId, framing: Framing, buf: &[u8], outcome: ReadOutcome) -> (step: Result<
    Envelope,
    Disconnect,
>)
    ensures
        match framed_envelope(sender, framing, buf@, outcome) {
            Ok(envelope) => step.is_ok() && step.unwrap()@ == envelope,
            Err(reason) => step == Err::<Envelope, Disconnect>(reason),
        },
{
    match outcome {
        ReadOutcome::Failed => Err(Disconnect::ReadFailed),
        ReadOutcome::Received(n) => {
            if n == 0 {
                Err(Disconnect::EndOfStream)
            } else if n > buf.len() || n > MAX_PAYLOAD {
                Err(Disconnect::Oversized)
            } else {
                let bytes = vstd::slice::slice_subrange(buf, 0, n);
                let malformed = match framing {
                    Framing::Text => !is_utf8(bytes),
                    Framing::Verbatim => false,
                };
                if malformed {
                    Err(Disconnect::Malformed)
                } else {
                    match Envelope::new(sender, vstd::slice::slice_to_vec(bytes)) {
                        Some(envelope) => Ok(envelope),
                        None => Err(Disconnect::Oversized),
                    }
                }
            }
        },
    }
}

} // verus!
