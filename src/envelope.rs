use vstd::prelude::*;

verus! {

/// A chat message: the channel it belongs to and its text.
pub struct RelayMessage {
    pub channel_id: u64,
    pub content: String,
}

/// The payload of one socket frame.
pub enum Envelope {
    /// A real chat payload.
    Message(RelayMessage),
    /// Sent by peers to register and to show that they are alive.
    KeepAlive,
}

/// The mathematical value of an `Envelope`.
pub enum EnvelopeModel {
    Message { channel_id: u64, content: Seq<char> },
    KeepAlive,
}

impl View for Envelope {
    type V = EnvelopeModel;

    open spec fn view(&self) -> EnvelopeModel {
        match self {
            Envelope::Message(m) => EnvelopeModel::Message {
                channel_id: m.channel_id,
                content: m.content@,
            },
            Envelope::KeepAlive => EnvelopeModel::KeepAlive,
        }
    }
}

impl RelayMessage {
    pub fn new(channel_id: u64, content: String) -> (r: RelayMessage)
        ensures
            r.channel_id == channel_id,
            r.content@ == content@,
    {
        RelayMessage { channel_id, content }
    }
}

} // verus!
