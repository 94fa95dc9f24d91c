//! The session of one peer: what it asks of the registry, and which frames
//! go out in answer.

use crate::frame::{
    error_reply, join_notices, leave_notices, nothing, notify_join, notify_leave, reply, route,
    route_frame, single, views, Delivery, DeliveryView,
};
use crate::ident::is_uuid_v4;
use crate::packet::{RequestPacket, RequestPacketView, ResponsePacket, ResponsePacketView, RoomError};
use crate::room::{valid_size, RoomView};
use crate::server::{
    created_room, holds_uuid, in_some_room, is_member, joined_room, requested_size,
    rooms_after_leave, valid_registry, Server,
};
use vstd::prelude::*;

verus! {

/// What arrives from a peer.
#[derive(Debug, PartialEq, Eq)]
pub enum Inbound {
    /// A text frame that holds a control packet.
    Packet(RequestPacket),
    /// A binary frame.
    Binary(Vec<u8>),
    /// Anything else: text that is no control packet, or a frame of another kind.
    Other,
}

pub enum InboundView {
    Packet(RequestPacketView),
    Binary(Seq<u8>),
    Other,
}

impl View for Inbound {
    type V = InboundView;

    open spec fn view(&self) -> InboundView {
        match self {
            Inbound::Packet(packet) => InboundView::Packet(packet@),
            Inbound::Binary(data) => InboundView::Binary(data@),
            Inbound::Other => InboundView::Other,
        }
    }
}

/// A session as the contracts see it: the peer's handle and the room it
/// believes to be in.
pub struct ClientView {
    pub peer: u64,
    pub room: Option<Seq<char>>,
}

impl ClientView {
    /// The session names a room exactly when the peer is in that room, and
    /// none when the peer is in no room.
    pub open spec fn consistent(self, rooms: Map<Seq<char>, RoomView>) -> bool {
        match self.room {
            Some(id) => is_member(rooms, id, self.peer),
            None => !in_some_room(rooms, self.peer),
        }
    }

    pub open spec fn in_room(self, id: Seq<char>) -> ClientView {
        ClientView { peer: self.peer, room: Some(id) }
    }

    pub open spec fn unjoined(self) -> ClientView {
        ClientView { peer: self.peer, room: None }
    }
}

/// The peer became the only member of the new room `id` and is told so.
pub open spec fn created(
    c0: ClientView,
    s0: Map<Seq<char>, RoomView>,
    size: Option<usize>,
    id: Seq<char>,
    c1: ClientView,
    s1: Map<Seq<char>, RoomView>,
    out: Seq<DeliveryView>,
) -> bool {
    &&& !s0.dom().contains(id)
    &&& s1 == s0.insert(id, created_room(size, c0.peer))
    &&& c1 == c0.in_room(id)
    &&& out == single(c0.peer, ResponsePacketView::Create { id })
}

/// Neither the session nor the registry changed.
pub open spec fn refused(
    c0: ClientView,
    s0: Map<Seq<char>, RoomView>,
    c1: ClientView,
    s1: Map<Seq<char>, RoomView>,
) -> bool {
    c1 == c0 && s1 == s0
}

/// What a request to create a room under the identifier `id` does.
pub open spec fn create_with_id_post(
    c0: ClientView,
    s0: Map<Seq<char>, RoomView>,
    size: Option<usize>,
    id: Seq<char>,
    c1: ClientView,
    s1: Map<Seq<char>, RoomView>,
    out: Seq<DeliveryView>,
) -> bool {
    if in_some_room(s0, c0.peer) {
        refused(c0, s0, c1, s1) && out == Seq::<DeliveryView>::empty()
    } else if !valid_size(requested_size(size)) {
        refused(c0, s0, c1, s1) && out == error_reply(c0.peer, RoomError::InvalidSize)
    } else if s0.dom().contains(id) {
        refused(c0, s0, c1, s1) && out == error_reply(c0.peer, RoomError::IdentifierTaken)
    } else {
        created(c0, s0, size, id, c1, s1, out)
    }
}

/// What a request to create a room does. The identifier is drawn at random
/// and is a version 4 UUID, whichever it is. The request succeeds unless the
/// drawn identifier is in use, so it always does where no room is registered
/// under a UUID.
pub open spec fn create_post(
    c0: ClientView,
    s0: Map<Seq<char>, RoomView>,
    size: Option<usize>,
    c1: ClientView,
    s1: Map<Seq<char>, RoomView>,
    out: Seq<DeliveryView>,
) -> bool {
    if in_some_room(s0, c0.peer) {
        refused(c0, s0, c1, s1) && out == Seq::<DeliveryView>::empty()
    } else if !valid_size(requested_size(size)) {
        refused(c0, s0, c1, s1) && out == error_reply(c0.peer, RoomError::InvalidSize)
    } else {
        ||| refused(c0, s0, c1, s1) && holds_uuid(s0) && out == error_reply(
            c0.peer,
            RoomError::IdentifierTaken,
        )
        ||| exists|id: Seq<char>| is_uuid_v4(id) && #[trigger] created(c0, s0, size, id, c1, s1, out)
    }
}

/// What a request to join the room `id` does.
pub open spec fn join_post(
    c0: ClientView,
    s0: Map<Seq<char>, RoomView>,
    id: Seq<char>,
    c1: ClientView,
    s1: Map<Seq<char>, RoomView>,
    out: Seq<DeliveryView>,
) -> bool {
    if in_some_room(s0, c0.peer) {
        refused(c0, s0, c1, s1) && out == Seq::<DeliveryView>::empty()
    } else if !s0.dom().contains(id) {
        refused(c0, s0, c1, s1) && out == error_reply(c0.peer, RoomError::UnknownRoom)
    } else if s0[id].is_full() {
        refused(c0, s0, c1, s1) && out == error_reply(c0.peer, RoomError::RoomFull)
    } else {
        &&& s1 == s0.insert(id, joined_room(s0[id], c0.peer))
        &&& c1 == c0.in_room(id)
        &&& out == join_notices(s0[id].peers, c0.peer)
    }
}

/// What a request to leave does, and the end of a connection too. A session
/// whose room does not hold the peer changes nothing.
pub open spec fn leave_post(
    c0: ClientView,
    s0: Map<Seq<char>, RoomView>,
    c1: ClientView,
    s1: Map<Seq<char>, RoomView>,
    out: Seq<DeliveryView>,
) -> bool {
    match c0.room {
        Some(id) if is_member(s0, id, c0.peer) => {
            let index = s0[id].peers.index_of(c0.peer);
            &&& s1 == rooms_after_leave(s0, id, index)
            &&& c1 == c0.unjoined()
            &&& out == leave_notices(s0[id].peers.remove(index), index as usize)
        },
        _ => refused(c0, s0, c1, s1) && out == Seq::<DeliveryView>::empty(),
    }
}

/// Who receives a binary frame that the peer sent.
pub open spec fn binary_post(
    c0: ClientView,
    s0: Map<Seq<char>, RoomView>,
    payload: Seq<u8>,
    out: Seq<DeliveryView>,
) -> bool {
    match c0.room {
        Some(id) if is_member(s0, id, c0.peer) => out == route(
            s0[id].peers,
            s0[id].peers.index_of(c0.peer),
            payload,
        ),
        _ => out == Seq::<DeliveryView>::empty(),
    }
}

/// What an inbound frame does.
pub open spec fn message_post(
    c0: ClientView,
    s0: Map<Seq<char>, RoomView>,
    message: InboundView,
    c1: ClientView,
    s1: Map<Seq<char>, RoomView>,
    out: Seq<DeliveryView>,
) -> bool {
    match message {
        InboundView::Packet(RequestPacketView::Create { size }) => create_post(
            c0,
            s0,
            size,
            c1,
            s1,
            out,
        ),
        InboundView::Packet(RequestPacketView::Join { id }) => join_post(c0, s0, id, c1, s1, out),
        InboundView::Packet(RequestPacketView::Leave) => leave_post(c0, s0, c1, s1, out),
        InboundView::Binary(payload) => refused(c0, s0, c1, s1) && binary_post(
            c0,
            s0,
            payload,
            out,
        ),
        InboundView::Other => refused(c0, s0, c1, s1) && out == Seq::<DeliveryView>::empty(),
    }
}

/// The identifier of the room that the registry made, if it made one.
pub open spec fn made_identifier(outcome: Result<Option<String>, RoomError>) -> Option<Seq<char>> {
    match outcome {
        Ok(Some(id)) => Some(id@),
        _ => None,
    }
}

pub struct Client {
    sender: u64,
    room_id: Option<String>,
}

impl View for Client {
    type V = ClientView;

    closed spec fn view(&self) -> ClientView {
        ClientView {
            peer: self.sender,
            room: match self.room_id {
                Some(id) => Some(id@),
                None => None,
            },
        }
    }
}

impl Client {
    /// The session of the peer with the handle `sender`, in no room.
    pub fn new(sender: u64) -> (client: Client)
        ensures
            client@ == (ClientView { peer: sender, room: None }),
    {
        Client { sender, room_id: None }
    }

    /// The peer's handle.
    pub fn sender(&self) -> (sender: u64)
        ensures
            sender == self@.peer,
    {
        self.sender
    }

    /// The identifier of the room that the session is in.
    pub fn room_id(&self) -> (id: Option<String>)
        ensures
            match id {
                Some(id) => self@.room == Some(id@),
                None => self@.room.is_none(),
            },
    {
        match &self.room_id {
            Some(id) => Some(id.clone()),
            None => None,
        }
    }

    fn settle_create(&mut self, outcome: Result<Option<String>, RoomError>) -> (out: Vec<Delivery>)
        ensures
            match outcome {
                Ok(None) => final(self)@ == old(self)@ && views(out@) == Seq::<DeliveryView>::empty(),
                Err(e) => final(self)@ == old(self)@ && views(out@) == error_reply(old(self)@.peer, e),
                Ok(Some(id)) => final(self)@ == old(self)@.in_room(id@) && views(out@) == single(
                    old(self)@.peer,
                    ResponsePacketView::Create { id: id@ },
                ),
            },
    {
        match outcome {
            Ok(None) => nothing(),
            Err(e) => reply(self.sender, e.packet()),
            Ok(Some(id)) => {
                self.room_id = Some(id.clone());
                reply(self.sender, ResponsePacket::Create { id })
            },
        }
    }

    /// Creates a room under the identifier `id` for this peer.
    pub fn handle_create_room_with_id(
        &mut self,
        server: &mut Server,
        size_option: Option<usize>,
        id: String,
    ) -> (out: Vec<Delivery>)
        ensures
            valid_registry(old(server)@),
            valid_registry(final(server)@),
            create_with_id_post(
                old(self)@,
                old(server)@,
                size_option,
                id@,
                final(self)@,
                final(server)@,
                views(out@),
            ),
    {
        let outcome = server.create_room_with_id(self.sender, size_option, id);
        self.settle_create(outcome)
    }

    /// Creates a room under a fresh identifier for this peer.
    pub fn handle_create_room(&mut self, server: &mut Server, size_option: Option<usize>) -> (out:
        Vec<Delivery>)
        ensures
            valid_registry(old(server)@),
            valid_registry(final(server)@),
            create_post(
                old(self)@,
                old(server)@,
                size_option,
                final(self)@,
                final(server)@,
                views(out@),
            ),
    {
        let outcome = server.create_room(self.sender, size_option);
        let ghost made: Option<Seq<char>> = made_identifier(outcome);
        let out = self.settle_create(outcome);
        proof {
            if let Some(id) = made {
                assert(created(
                    old(self)@,
                    old(server)@,
                    size_option,
                    id,
                    self@,
                    server@,
                    views(out@),
                ));
            }
        }
        out
    }

    /// Joins the room `room_id` and tells its peers.
    pub fn handle_join_room(&mut self, server: &mut Server, room_id: String) -> (out: Vec<Delivery>)
        ensures
            valid_registry(old(server)@),
            valid_registry(final(server)@),
            join_post(
                old(self)@,
                old(server)@,
                room_id@,
                final(self)@,
                final(server)@,
                views(out@),
            ),
    {
        match server.join_room(self.sender, &room_id) {
            Ok(None) => nothing(),
            Err(e) => reply(self.sender, e.packet()),
            Ok(Some(joined)) => {
                self.room_id = Some(room_id);
                proof {
                    let before = old(server)@[room_id@].peers;
                    assert(joined.peers@.drop_last() =~= before);
                }
                notify_join(&joined.peers, self.sender)
            },
        }
    }

    /// Leaves the room that the session is in and tells the peers that remain.
    pub fn handle_leave_room(&mut self, server: &mut Server) -> (out: Vec<Delivery>)
        ensures
            valid_registry(old(server)@),
            valid_registry(final(server)@),
            leave_post(old(self)@, old(server)@, final(self)@, final(server)@, views(out@)),
    {
        proof {
            use_type_invariant(&*server);
            server.lemma_valid();
        }
        let left = match &self.room_id {
            Some(room_id) => server.leave_room(self.sender, room_id),
            None => None,
        };
        match left {
            Some(membership) => {
                proof {
                    let id = old(self)@.room.unwrap();
                    lemma_position_is_index(
                        old(server)@[id].peers,
                        self.sender,
                        membership.index as int,
                    );
                }
                self.room_id = None;
                notify_leave(&membership.peers, membership.index)
            },
            None => nothing(),
        }
    }

    /// Relays a binary frame that this peer sent.
    pub fn handle_binary(&self, server: &Server, data: Vec<u8>) -> (out: Vec<Delivery>)
        ensures
            valid_registry(server@),
            binary_post(self@, server@, data@, views(out@)),
    {
        proof {
            use_type_invariant(server);
            server.lemma_valid();
        }
        let found = match &self.room_id {
            Some(room_id) => server.locate(self.sender, room_id),
            None => None,
        };
        match found {
            Some(membership) => {
                proof {
                    let id = self@.room.unwrap();
                    assert(server@[id].valid());
                    lemma_position_is_index(server@[id].peers, self.sender, membership.index as int);
                }
                route_frame(&membership.peers, membership.index, data)
            },
            None => nothing(),
        }
    }

    /// Answers one inbound frame.
    pub fn handle_message(&mut self, server: &mut Server, message: Inbound) -> (out: Vec<Delivery>)
        ensures
            valid_registry(old(server)@),
            valid_registry(final(server)@),
            message_post(
                old(self)@,
                old(server)@,
                message@,
                final(self)@,
                final(server)@,
                views(out@),
            ),
    {
        proof {
            use_type_invariant(&*server);
            server.lemma_valid();
        }
        match message {
            Inbound::Packet(RequestPacket::Create { size }) => self.handle_create_room(server, size),
            Inbound::Packet(RequestPacket::Join { id }) => self.handle_join_room(server, id),
            Inbound::Packet(RequestPacket::Leave) => self.handle_leave_room(server),
            Inbound::Binary(data) => self.handle_binary(server, data),
            Inbound::Other => nothing(),
        }
    }

    /// Ends the session: the peer leaves its room, if it is in one.
    pub fn handle_close(&mut self, server: &mut Server) -> (out: Vec<Delivery>)
        ensures
            valid_registry(old(server)@),
            valid_registry(final(server)@),
            leave_post(old(self)@, old(server)@, final(self)@, final(server)@, views(out@)),
    {
        self.handle_leave_room(server)
    }
}

/// In a list without duplicates, the place where a peer is found is the
/// index that the list gives for it.
pub proof fn lemma_position_is_index(peers: Seq<u64>, peer: u64, at: int)
    requires
        peers.no_duplicates(),
        0 <= at < peers.len(),
        peers[at] == peer,
    ensures
        peers.index_of(peer) == at,
{
    let found = peers.index_of(peer);
    assert(0 <= found < peers.len() && peers[found] == peer);
}

} // verus!
