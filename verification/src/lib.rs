//! A relay for small groups of peers.
//!
//! Peers gather in bounded rooms held by a registry. A session drives the
//! registry on behalf of one peer and answers every inbound frame with the
//! list of frames to deliver. Binary frames carry a one-byte address that the
//! relay rewrites from destination to source.

pub mod client;
pub mod frame;
pub mod ident;
pub mod laws;
pub mod origin;
pub mod packet;
pub mod room;
pub mod server;

pub use client::{Client, Inbound};
pub use frame::{Delivery, Frame};
pub use origin::{check_origin, OriginDecision, OriginHeader};
pub use packet::{RequestPacket, ResponsePacket, RoomError};
pub use room::{Room, RoomView};
pub use server::{Membership, Server};
