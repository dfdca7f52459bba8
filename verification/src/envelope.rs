//! The typed wire units: the outer envelope and the inner chat message.
//!
//! All text is carried as UTF-8 bytes (`Vec<u8>`); the library never needs to
//! look inside multi-byte characters, so byte sequences are the natural model.

use vstd::prelude::*;

verus! {

/// The `messageType` field of an envelope.
#[derive(Clone, Copy, PartialEq, Eq, Structural, Debug)]
pub enum MsgKind {
    /// Server -> client: the current roster of display names.
    Users,
    /// Client -> server: request to set the display name.
    Register,
    /// Either direction: a chat message.
    Message,
}

/// The outer wire unit.  Exactly which of `data` / `data_array` is populated
/// depends on `kind`, but the codec is total over all combinations.
pub struct Envelope {
    pub kind: MsgKind,
    pub data: Option<Vec<u8>>,
    pub data_array: Option<Vec<Vec<u8>>>,
}

/// Mathematical model of an [`Envelope`].
#[verifier::ext_equal]
pub ghost struct EnvelopeView {
    pub kind: MsgKind,
    pub data: Option<Seq<u8>>,
    pub data_array: Option<Seq<Seq<u8>>>,
}

impl View for Envelope {
    type V = EnvelopeView;

    open spec fn view(&self) -> EnvelopeView {
        EnvelopeView {
            kind: self.kind,
            data: self.data.deep_view(),
            data_array: self.data_array.deep_view(),
        }
    }
}

/// The inner chat message, JSON-encoded into `Envelope.data` when
/// `kind == Message`.
pub struct ChatMessage {
    pub from: Vec<u8>,
    pub message: Vec<u8>,
    /// Epoch milliseconds.
    pub time: u64,
}

/// Mathematical model of a [`ChatMessage`].
#[verifier::ext_equal]
pub ghost struct ChatMessageView {
    pub from: Seq<u8>,
    pub message: Seq<u8>,
    pub time: u64,
}

impl View for ChatMessage {
    type V = ChatMessageView;

    open spec fn view(&self) -> ChatMessageView {
        ChatMessageView { from: self.from@, message: self.message@, time: self.time }
    }
}

} // verus!
