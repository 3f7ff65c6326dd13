//! The DHCP message kinds (RFC 2131) and their one-byte wire encoding.

use vstd::prelude::*;

verus! {

/// The eight DHCP message kinds, carried in option 53.
#[derive(Debug, Clone, Copy, PartialEq, Eq, Hash, Structural)]
pub enum MessageType {
    Discover,
    Offer,
    Request,
    Decline,
    Ack,
    Nak,
    Release,
    Inform,
}

/// The one-byte wire value of a message kind: Discover is 1, ..., Inform is 8.
pub open spec fn message_type_code(m: MessageType) -> u8 {
    match m {
        MessageType::Discover => 1,
        MessageType::Offer => 2,
        MessageType::Request => 3,
        MessageType::Decline => 4,
        MessageType::Ack => 5,
        MessageType::Nak => 6,
        MessageType::Release => 7,
        MessageType::Inform => 8,
    }
}

/// The message kind denoted by a byte, if any: only 1 through 8 denote one.
pub open spec fn message_type_of_code(value: u8) -> Option<MessageType> {
    match value {
        1u8 => Some(MessageType::Discover),
        2u8 => Some(MessageType::Offer),
        3u8 => Some(MessageType::Request),
        4u8 => Some(MessageType::Decline),
        5u8 => Some(MessageType::Ack),
        6u8 => Some(MessageType::Nak),
        7u8 => Some(MessageType::Release),
        8u8 => Some(MessageType::Inform),
        _ => None,
    }
}

impl MessageType {
    /// Convert to the one-byte wire representation.
    pub fn to_u8(self) -> (r: u8)
        ensures
            r == message_type_code(self),
    {
        match self {
            MessageType::Discover => 1,
            MessageType::Offer => 2,
            MessageType::Request => 3,
            MessageType::Decline => 4,
            MessageType::Ack => 5,
            MessageType::Nak => 6,
            MessageType::Release => 7,
            MessageType::Inform => 8,
        }
    }

    /// Parse from a one-byte wire value; bytes outside 1..=8 denote no kind.
    pub fn from_u8(value: u8) -> (r: Option<Self>)
        ensures
            r == message_type_of_code(value),
    {
        match value {
            1 => Some(Self::Discover),
            2 => Some(Self::Offer),
            3 => Some(Self::Request),
            4 => Some(Self::Decline),
            5 => Some(Self::Ack),
            6 => Some(Self::Nak),
            7 => Some(Self::Release),
            8 => Some(Self::Inform),
            _ => None,
        }
    }
}

/// The same eight message kinds under their older name, kept for callers
/// of the previous interface.
#[derive(Debug, Clone, Copy, PartialEq, Eq, Structural)]
pub enum DhcpMessageType {
    Discover,
    Offer,
    Request,
    Decline,
    Ack,
    Nak,
    Release,
    Inform,
}

/// The older name for each message kind.
pub open spec fn compat_kind(m: MessageType) -> DhcpMessageType {
    match m {
        MessageType::Discover => DhcpMessageType::Discover,
        MessageType::Offer => DhcpMessageType::Offer,
        MessageType::Request => DhcpMessageType::Request,
        MessageType::Decline => DhcpMessageType::Decline,
        MessageType::Ack => DhcpMessageType::Ack,
        MessageType::Nak => DhcpMessageType::Nak,
        MessageType::Release => DhcpMessageType::Release,
        MessageType::Inform => DhcpMessageType::Inform,
    }
}

impl DhcpMessageType {
    /// Parse from a one-byte wire value, through the message-kind mapping.
    pub fn from_u8(value: u8) -> (r: Option<Self>)
        ensures
            ({
                match message_type_of_code(value) {
                    Some(m) => r == Some(compat_kind(m)),
                    None => r is None,
                }
            }),
    {
        match MessageType::from_u8(value) {
            Some(m) => Some(
                match m {
                    MessageType::Discover => Self::Discover,
                    MessageType::Offer => Self::Offer,
                    MessageType::Request => Self::Request,
                    MessageType::Decline => Self::Decline,
                    MessageType::Ack => Self::Ack,
                    MessageType::Nak => Self::Nak,
                    MessageType::Release => Self::Release,
                    MessageType::Inform => Self::Inform,
                },
            ),
            None => None,
        }
    }
}

/// `from_u8` inverts `to_u8`: every message kind survives a round trip
/// through its wire byte, and a byte decodes to a kind exactly when it is
/// 1 through 8, in which case encoding that kind gives the byte back.
pub proof fn lemma_message_type_code_bijective()
    ensures
        forall|m: MessageType| message_type_of_code(message_type_code(m)) == Some(m),
        forall|v: u8|
            #[trigger] message_type_of_code(v) matches Some(m) ==> message_type_code(m) == v,
        forall|v: u8| (v == 0 || v >= 9) ==> message_type_of_code(v) is None,
{
}

} // verus!
