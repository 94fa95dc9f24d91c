//! Control packets exchanged with peers, and the errors they report.

use vstd::prelude::*;

verus! {

/// What a peer asks of the relay.
#[derive(Debug, PartialEq, Eq)]
pub enum RequestPacket {
    Join { id: String },
    Create { size: Option<usize> },
    Leave,
}

/// What the relay tells a peer.
#[derive(Debug, PartialEq, Eq)]
pub enum ResponsePacket {
    Join { size: Option<usize> },
    Create { id: String },
    Leave { index: usize },
    Error { message: String },
}

pub enum RequestPacketView {
    Join { id: Seq<char> },
    Create { size: Option<usize> },
    Leave,
}

pub enum ResponsePacketView {
    Join { size: Option<usize> },
    Create { id: Seq<char> },
    Leave { index: usize },
    Error { message: Seq<char> },
}

impl View for RequestPacket {
    type V = RequestPacketView;

    open spec fn view(&self) -> RequestPacketView {
        match self {
            RequestPacket::Join { id } => RequestPacketView::Join { id: id@ },
            RequestPacket::Create { size } => RequestPacketView::Create { size: *size },
            RequestPacket::Leave => RequestPacketView::Leave,
        }
    }
}

impl View for ResponsePacket {
    type V = ResponsePacketView;

    open spec fn view(&self) -> ResponsePacketView {
        match self {
            ResponsePacket::Join { size } => ResponsePacketView::Join { size: *size },
            ResponsePacket::Create { id } => ResponsePacketView::Create { id: id@ },
            ResponsePacket::Leave { index } => ResponsePacketView::Leave { index: *index },
            ResponsePacket::Error { message } => ResponsePacketView::Error { message: message@ },
        }
    }
}

/// Why a request to create or join a room was turned down.
#[derive(Debug, Clone, Copy, PartialEq, Eq, Structural)]
pub enum RoomError {
    InvalidSize,
    IdentifierTaken,
    UnknownRoom,
    RoomFull,
}

impl RoomError {
    /// The wording sent to the peer.
    pub open spec fn text(self) -> Seq<char> {
        match self {
            RoomError::InvalidSize => "The room size is not valid"@,
            RoomError::IdentifierTaken => "A room with that identifier already exists."@,
            RoomError::UnknownRoom => "The room does not exist."@,
            RoomError::RoomFull => "The room is full."@,
        }
    }

    pub fn message(&self) -> (s: String)
        ensures
            s@ == self.text(),
    {
        match self {
            RoomError::InvalidSize => "The room size is not valid".to_owned(),
            RoomError::IdentifierTaken => "A room with that identifier already exists.".to_owned(),
            RoomError::UnknownRoom => "The room does not exist.".to_owned(),
            RoomError::RoomFull => "The room is full.".to_owned(),
        }
    }

    /// The error frame that reports this error.
    pub fn packet(&self) -> (p: ResponsePacket)
        ensures
            p@ == (ResponsePacketView::Error { message: self.text() }),
    {
        ResponsePacket::Error { message: self.message() }
    }
}

} // verus!
