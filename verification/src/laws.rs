//! What holds of every room, registry and session.

use crate::client::{
    binary_post, created, leave_post, message_post, refused, ClientView, InboundView,
};
use crate::frame::{readdressed, route, DeliveryView, FrameView, BROADCAST};
use crate::packet::RequestPacketView;
use crate::room::{lemma_remove_keeps_valid, RoomView};
use crate::server::{
    created_room, in_some_room, left_room, lemma_leave_keeps_valid, lemma_push_contains,
    lemma_remove_contains, valid_registry,
};
use vstd::prelude::*;

verus! {

/// When the peer at `at` leaves, the peers before it keep their indices and
/// the peers behind it move down by one.
pub proof fn lemma_leave_renumbers(room: RoomView, at: int, index: int)
    requires
        0 <= at < room.peers.len(),
        0 <= index < room.peers.len(),
        index != at,
    ensures
        index < at ==> left_room(room, at).peers[index] == room.peers[index],
        index > at ==> left_room(room, at).peers[index - 1] == room.peers[index],
        left_room(room, at).peers.len() == room.peers.len() - 1,
{
}

/// A frame addressed to an index of the room reaches the peer at that index
/// and nobody else. It arrives with the sender's index in its first byte and
/// with every other byte as it was sent.
pub proof fn lemma_unicast_delivery(room: RoomView, source: int, payload: Seq<u8>)
    requires
        room.valid(),
        0 <= source < room.peers.len(),
        payload.len() > 0,
        payload[0] < room.peers.len(),
    ensures
        route(room.peers, source, payload) == seq![
            DeliveryView {
                to: room.peers[payload[0] as int],
                frame: FrameView::Binary(readdressed(payload, source)),
            },
        ],
        readdressed(payload, source).len() == payload.len(),
        readdressed(payload, source)[0] == source,
        forall|k: int| 1 <= k < payload.len() ==> readdressed(payload, source)[k] == payload[k],
{
}

/// Readdressing undoes itself: when the receiver of a frame sends it back
/// as it arrived, the first sender receives the frame that it sent.
pub proof fn lemma_reply_returns_frame(room: RoomView, source: int, payload: Seq<u8>)
    requires
        room.valid(),
        0 <= source < room.peers.len(),
        payload.len() > 0,
        payload[0] < room.peers.len(),
    ensures
        route(room.peers, payload[0] as int, readdressed(payload, source)) == seq![
            DeliveryView { to: room.peers[source], frame: FrameView::Binary(payload) },
        ],
{
    let there = readdressed(payload, source);
    assert(there[0] == source);
    assert(readdressed(there, payload[0] as int) =~= payload);
}

/// A frame for the broadcast address reaches every peer of the room but the
/// sender, each of them once, with the sender's index in its first byte.
pub proof fn lemma_broadcast_delivery(room: RoomView, source: int, payload: Seq<u8>)
    requires
        room.valid(),
        0 <= source < room.peers.len(),
        payload.len() > 0,
        payload[0] == BROADCAST,
    ensures
        route(room.peers, source, payload).len() == room.peers.len() - 1,
        forall|i: int|
            0 <= i < route(room.peers, source, payload).len() ==> (#[trigger] route(
                room.peers,
                source,
                payload,
            )[i]).frame == FrameView::Binary(readdressed(payload, source)),
        forall|p: u64|
            (exists|i: int|
                0 <= i < route(room.peers, source, payload).len() && (#[trigger] route(
                    room.peers,
                    source,
                    payload,
                )[i]).to == p) <==> (room.peers.contains(p) && p != room.peers[source]),
        forall|i: int, j: int|
            0 <= i < j < route(room.peers, source, payload).len() ==> (#[trigger] route(
                room.peers,
                source,
                payload,
            )[i]).to != (#[trigger] route(room.peers, source, payload)[j]).to,
{
    let out = route(room.peers, source, payload);
    let others = room.peers.remove(source);
    lemma_remove_keeps_valid(room, source);
    assert forall|p: u64|
        (exists|i: int| 0 <= i < out.len() && (#[trigger] out[i]).to == p) <==> (
        room.peers.contains(p) && p != room.peers[source]) by {
        if exists|i: int| 0 <= i < out.len() && (#[trigger] out[i]).to == p {
            let i = choose|i: int| 0 <= i < out.len() && (#[trigger] out[i]).to == p;
            assert(others[i] == p);
            assert(others.contains(p));
            lemma_remove_contains(room.peers, source, p);
        }
        if room.peers.contains(p) && p != room.peers[source] {
            let at = choose|at: int| 0 <= at < room.peers.len() && room.peers[at] == p;
            let i = if at < source { at } else { at - 1 };
            assert(others[i] == p);
            assert(out[i].to == p);
        }
    }
    assert forall|i: int, j: int| 0 <= i < j < out.len() implies (#[trigger] out[i]).to != (
    #[trigger] out[j]).to by {
        assert(others[i] != others[j]);
    }
}

/// Rooms are isolated: a binary frame that a session sends reaches no member
/// of a room other than the session's own.
pub proof fn lemma_room_isolation(
    client: ClientView,
    rooms: Map<Seq<char>, RoomView>,
    payload: Seq<u8>,
    out: Seq<DeliveryView>,
    other: Seq<char>,
)
    requires
        valid_registry(rooms),
        binary_post(client, rooms, payload, out),
        rooms.dom().contains(other),
        client.room != Some(other),
    ensures
        forall|i: int| 0 <= i < out.len() ==> !rooms[other].peers.contains((#[trigger] out[i]).to),
{
    assert forall|i: int| 0 <= i < out.len() implies !rooms[other].peers.contains(
        (#[trigger] out[i]).to,
    ) by {
        let id = client.room.unwrap();
        let peers = rooms[id].peers;
        let source = peers.index_of(client.peer);
        assert(rooms[id].valid());
        assert(0 <= source < peers.len());
        let to = out[i].to;
        if payload[0] < peers.len() {
            assert(to == peers[payload[0] as int]);
        } else {
            assert(to == peers.remove(source)[i]);
            assert(peers.remove(source).contains(to));
            lemma_remove_contains(peers, source, to);
        }
        assert(rooms[id].peers.contains(to));
    }
}

/// A peer of a list that is not the one at `at` is still there when that one
/// is removed.
proof fn lemma_remove_keeps_others(peers: Seq<u64>, at: int, p: u64)
    requires
        0 <= at < peers.len(),
        peers.contains(p),
        p != peers[at],
    ensures
        peers.remove(at).contains(p),
{
    let i = choose|i: int| 0 <= i < peers.len() && peers[i] == p;
    let j = if i < at { i } else { i - 1 };
    assert(peers.remove(at)[j] == p);
}

/// A session that names its room exactly when its peer is in that room
/// still does so after it has answered a frame.
pub proof fn lemma_session_stays_consistent(
    c0: ClientView,
    s0: Map<Seq<char>, RoomView>,
    message: InboundView,
    c1: ClientView,
    s1: Map<Seq<char>, RoomView>,
    out: Seq<DeliveryView>,
)
    requires
        valid_registry(s0),
        c0.consistent(s0),
        message_post(c0, s0, message, c1, s1, out),
    ensures
        c1.consistent(s1),
{
    match message {
        InboundView::Packet(RequestPacketView::Create { size }) => {
            if !refused(c0, s0, c1, s1) {
                let id = choose|id: Seq<char>| #[trigger] created(c0, s0, size, id, c1, s1, out);
                assert(created_room(size, c0.peer).peers[0] == c0.peer);
            }
        },
        InboundView::Packet(RequestPacketView::Join { id }) => {
            if !refused(c0, s0, c1, s1) {
                lemma_push_contains(s0[id].peers, c0.peer, c0.peer);
            }
        },
        InboundView::Packet(RequestPacketView::Leave) => {
            if !refused(c0, s0, c1, s1) {
                let id = c0.room.unwrap();
                let index = s0[id].peers.index_of(c0.peer);
                lemma_leave_keeps_valid(s0, id, index);
            }
        },
        _ => {},
    }
}

/// What one session does leaves every other session as consistent as it was:
/// no peer enters or leaves a room but by its own request.
pub proof fn lemma_other_sessions_stay_consistent(
    c0: ClientView,
    s0: Map<Seq<char>, RoomView>,
    message: InboundView,
    c1: ClientView,
    s1: Map<Seq<char>, RoomView>,
    out: Seq<DeliveryView>,
    other: ClientView,
)
    requires
        valid_registry(s0),
        message_post(c0, s0, message, c1, s1, out),
        other.peer != c0.peer,
        other.consistent(s0),
    ensures
        other.consistent(s1),
{
    let q = other.peer;
    if s1 != s0 {
        match message {
            InboundView::Packet(RequestPacketView::Create { size }) => {
                let id = choose|id: Seq<char>| #[trigger] created(c0, s0, size, id, c1, s1, out);
                let fresh = created_room(size, c0.peer);
                if fresh.peers.contains(q) {
                    let i = choose|i: int| 0 <= i < fresh.peers.len() && fresh.peers[i] == q;
                }
                if in_some_room(s1, q) {
                    let k = choose|k: Seq<char>|
                        s1.dom().contains(k) && #[trigger] s1[k].peers.contains(q);
                    assert(k != id);
                    assert(s0[k].peers.contains(q));
                }
            },
            InboundView::Packet(RequestPacketView::Join { id }) => {
                lemma_push_contains(s0[id].peers, c0.peer, q);
                if in_some_room(s1, q) {
                    let k = choose|k: Seq<char>|
                        s1.dom().contains(k) && #[trigger] s1[k].peers.contains(q);
                    assert(s0[k].peers.contains(q));
                }
            },
            InboundView::Packet(RequestPacketView::Leave) => {
                let id = c0.room.unwrap();
                let index = s0[id].peers.index_of(c0.peer);
                assert(s0[id].peers[index] == c0.peer);
                if in_some_room(s1, q) {
                    let k = choose|k: Seq<char>|
                        s1.dom().contains(k) && #[trigger] s1[k].peers.contains(q);
                    if k == id {
                        lemma_remove_contains(s0[id].peers, index, q);
                    }
                    assert(s0[k].peers.contains(q));
                }
                if let Some(r) = other.room {
                    if r == id {
                        lemma_remove_keeps_others(s0[id].peers, index, q);
                        assert(s0[id].peers.remove(index).len() > 0);
                    }
                }
            },
            _ => {},
        }
    }
}

/// Leaving happens once: whatever a session did on a first request to leave,
/// or at the end of its connection, a second one sends nothing and changes
/// nothing.
pub proof fn lemma_second_leave_does_nothing(
    c0: ClientView,
    s0: Map<Seq<char>, RoomView>,
    c1: ClientView,
    s1: Map<Seq<char>, RoomView>,
    first: Seq<DeliveryView>,
    c2: ClientView,
    s2: Map<Seq<char>, RoomView>,
    second: Seq<DeliveryView>,
)
    requires
        leave_post(c0, s0, c1, s1, first),
        leave_post(c1, s1, c2, s2, second),
    ensures
        c2 == c1,
        s2 == s1,
        second == Seq::<DeliveryView>::empty(),
{
}

/// A request to create or join a room from a peer that is in a room already
/// sends nothing and changes nothing.
pub proof fn lemma_requests_while_in_room_are_ignored(
    c0: ClientView,
    s0: Map<Seq<char>, RoomView>,
    message: InboundView,
    c1: ClientView,
    s1: Map<Seq<char>, RoomView>,
    out: Seq<DeliveryView>,
)
    requires
        in_some_room(s0, c0.peer),
        message_post(c0, s0, message, c1, s1, out),
        message matches InboundView::Packet(p) && !(p matches RequestPacketView::Leave),
    ensures
        c1 == c0,
        s1 == s0,
        out == Seq::<DeliveryView>::empty(),
{
}

} // verus!
