//! Client identifiers and the message envelope that travels from a reader to
//! the broadcaster.

use vstd::prelude::*;

verus! {

/// Hard upper bound, in bytes, on the payload of one message.
pub const MAX_PAYLOAD: usize = 2048;

/// Stable identifier of one live connection.
#[derive(Clone, Copy, Debug, PartialEq, Eq, Structural, Hash)]
pub struct ClientId(pub u64);

/// Mathematical value of an [`Envelope`].
pub ghost struct EnvelopeView {
    pub sender: ClientId,
    pub payload: Seq<u8>,
}

/// What a payload must satisfy to be carried: at least one byte and at most
/// [`MAX_PAYLOAD`].
pub open spec fn payload_ok(payload: Seq<u8>) -> bool {
    0 < payload.len() <= MAX_PAYLOAD
}

/// One message on its way to the broadcaster: who sent it and the bytes sent.
/// It cannot be changed once made.
#[derive(Debug, PartialEq, Eq)]
pub struct Envelope {
    sender: ClientId,
    payload: Vec<u8>,
}

impl View for Envelope {
    type V = EnvelopeView;

    closed spec fn view(&self) -> EnvelopeView {
        EnvelopeView { sender: self.sender, payload: self.payload@ }
    }
}

impl Envelope {
    #[verifier::type_invariant]
    spec fn inv(self) -> bool {
        payload_ok(self.payload@)
    }

    /// Makes an envelope, or returns `None` where the payload is empty or
    /// longer than [`MAX_PAYLOAD`].
    pub fn new(sender: ClientId, payload: Vec<u8>) -> (made: Option<Envelope>)
        ensures
            made.is_some() <==> payload_ok(payload@),
            made.is_some() ==> made.unwrap()@ == (EnvelopeView { sender, payload: payload@ }),
    {
        if payload.len() == 0 || payload.len() > MAX_PAYLOAD {
            None
        } else {
            Some(Envelope { sender, payload })
        }
    }

    /// The client that sent the message.
    pub fn sender(&self) -> (id: ClientId)
        ensures
            id == self@.sender,
    {
        self.sender
    }

    /// The bytes of the message, exactly as they were received.
    pub fn payload(&self) -> (bytes: &[u8])
        ensures
            bytes@ == self@.payload,
            payload_ok(bytes@),
    {
        proof {
            use_type_invariant(self);
        }
        self.payload.as_slice()
    }
}

} // verus!
