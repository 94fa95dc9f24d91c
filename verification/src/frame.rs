//! Outbound frames, and the routing of binary frames inside a room.
//!
//! The first byte of a binary frame is its address: the destination's index
//! on the way in, the source's index on the way out.

use crate::packet::{ResponsePacket, ResponsePacketView, RoomError};
use vstd::prelude::*;

verus! {

/// The destination byte that addresses every peer but the sender.
pub const BROADCAST: u8 = 255;

/// A frame on its way to a peer.
#[derive(Debug, PartialEq, Eq)]
pub enum Frame {
    Text(ResponsePacket),
    Binary(Vec<u8>),
}

pub enum FrameView {
    Text(ResponsePacketView),
    Binary(Seq<u8>),
}

impl View for Frame {
    type V = FrameView;

    open spec fn view(&self) -> FrameView {
        match self {
            Frame::Text(packet) => FrameView::Text(packet@),
            Frame::Binary(data) => FrameView::Binary(data@),
        }
    }
}

/// A frame and the peer that is to receive it.
#[derive(Debug, PartialEq, Eq)]
pub struct Delivery {
    pub to: u64,
    pub frame: Frame,
}

pub struct DeliveryView {
    pub to: u64,
    pub frame: FrameView,
}

impl View for Delivery {
    type V = DeliveryView;

    open spec fn view(&self) -> DeliveryView {
        DeliveryView { to: self.to, frame: self.frame@ }
    }
}

/// The deliveries of a list, each by its view.
pub open spec fn views(list: Seq<Delivery>) -> Seq<DeliveryView> {
    list.map_values(|d: Delivery| d@)
}

/// One control packet for one peer.
pub open spec fn single(to: u64, packet: ResponsePacketView) -> Seq<DeliveryView> {
    seq![DeliveryView { to, frame: FrameView::Text(packet) }]
}

/// The report of `error` to `peer`.
pub open spec fn error_reply(peer: u64, error: RoomError) -> Seq<DeliveryView> {
    single(peer, ResponsePacketView::Error { message: error.text() })
}

/// The notices of a join: the peers present `before` learn that somebody
/// joined, in index order; then the joiner learns its index, which is the
/// number of peers that were there before it.
pub open spec fn join_notices(before: Seq<u64>, joiner: u64) -> Seq<DeliveryView> {
    Seq::new(
        before.len() + 1,
        |i: int|
            if i < before.len() {
                DeliveryView {
                    to: before[i],
                    frame: FrameView::Text(ResponsePacketView::Join { size: None }),
                }
            } else {
                DeliveryView {
                    to: joiner,
                    frame: FrameView::Text(
                        ResponsePacketView::Join { size: Some(before.len() as usize) },
                    ),
                }
            },
    )
}

/// The notices of a leave: each peer that remains learns the index that the
/// departed peer had, in index order.
pub open spec fn leave_notices(remaining: Seq<u64>, index: usize) -> Seq<DeliveryView> {
    Seq::new(
        remaining.len(),
        |i: int|
            DeliveryView {
                to: remaining[i],
                frame: FrameView::Text(ResponsePacketView::Leave { index }),
            },
    )
}

/// A payload with its address byte replaced by the source's index.
pub open spec fn readdressed(payload: Seq<u8>, source: int) -> Seq<u8> {
    payload.update(0, source as u8)
}

/// Where a binary frame goes. The peer at index `source` of `peers` sent
/// `payload`, whose first byte names the destination. An index of the room
/// gets the frame alone, the sender itself included; the broadcast address
/// gets it to everybody but the sender, in index order; any other address,
/// and an empty payload, gets it nowhere.
pub open spec fn route(peers: Seq<u64>, source: int, payload: Seq<u8>) -> Seq<DeliveryView> {
    if payload.len() == 0 {
        Seq::empty()
    } else if payload[0] < peers.len() {
        seq![
            DeliveryView {
                to: peers[payload[0] as int],
                frame: FrameView::Binary(readdressed(payload, source)),
            },
        ]
    } else if payload[0] == BROADCAST {
        Seq::new(
            (peers.len() - 1) as nat,
            |i: int|
                DeliveryView {
                    to: peers.remove(source)[i],
                    frame: FrameView::Binary(readdressed(payload, source)),
                },
        )
    } else {
        Seq::empty()
    }
}

/// No frame for anybody.
pub fn nothing() -> (out: Vec<Delivery>)
    ensures
        views(out@) == Seq::<DeliveryView>::empty(),
{
    let out: Vec<Delivery> = Vec::new();
    proof {
        assert(views(out@) =~= Seq::<DeliveryView>::empty());
    }
    out
}

/// One packet for one peer.
pub fn reply(to: u64, packet: ResponsePacket) -> (out: Vec<Delivery>)
    ensures
        views(out@) == single(to, packet@),
{
    let mut out: Vec<Delivery> = Vec::new();
    out.push(Delivery { to, frame: Frame::Text(packet) });
    proof {
        assert(views(out@) =~= single(to, packet@));
    }
    out
}

/// The notices that follow a join. `peers` is the room after the join, with
/// the joiner in the last place.
pub fn notify_join(peers: &Vec<u64>, joiner: u64) -> (out: Vec<Delivery>)
    requires
        peers@.len() > 0,
        peers@.last() == joiner,
        !peers@.drop_last().contains(joiner),
    ensures
        views(out@) == join_notices(peers@.drop_last(), joiner),
{
    let ghost before = peers@.drop_last();
    let mut out: Vec<Delivery> = Vec::new();
    let mut i: usize = 0;
    while i < peers.len()
        invariant
            i <= peers.len(),
            peers@.len() > 0,
            peers@.last() == joiner,
            before == peers@.drop_last(),
            !before.contains(joiner),
            out@.len() == i,
            forall|j: int| 0 <= j < i ==> (#[trigger] out@[j])@ == join_notices(before, joiner)[j],
        decreases peers.len() - i,
    {
        let to: u64 = peers[i];
        let size: Option<usize> = if to == joiner {
            Some(peers.len() - 1)
        } else {
            None
        };
        proof {
            if (i as int) < before.len() {
                assert(before[i as int] == to);
                assert(before.contains(to));
            }
        }
        out.push(Delivery { to, frame: Frame::Text(ResponsePacket::Join { size }) });
        i += 1;
    }
    proof {
        assert(views(out@) =~= join_notices(before, joiner));
    }
    out
}

/// The notices that follow a leave. `remaining` is the room after the leave
/// and `index` the place that the departed peer had.
pub fn notify_leave(remaining: &Vec<u64>, index: usize) -> (out: Vec<Delivery>)
    ensures
        views(out@) == leave_notices(remaining@, index),
{
    let mut out: Vec<Delivery> = Vec::new();
    let mut i: usize = 0;
    while i < remaining.len()
        invariant
            i <= remaining.len(),
            out@.len() == i,
            forall|j: int|
                0 <= j < i ==> (#[trigger] out@[j])@ == leave_notices(remaining@, index)[j],
        decreases remaining.len() - i,
    {
        out.push(
            Delivery { to: remaining[i], frame: Frame::Text(ResponsePacket::Leave { index }) },
        );
        i += 1;
    }
    proof {
        assert(views(out@) =~= leave_notices(remaining@, index));
    }
    out
}

/// Rewrites the address byte of `data` from destination to source and says
/// who receives the frame. `peers` is the sender's room and `source` the
/// sender's index in it.
pub fn route_frame(peers: &Vec<u64>, source: usize, data: Vec<u8>) -> (out: Vec<Delivery>)
    requires
        source < peers@.len(),
        source <= u8::MAX,
        peers@.no_duplicates(),
    ensures
        views(out@) == route(peers@, source as int, data@),
{
    let mut out: Vec<Delivery> = Vec::new();
    if data.len() == 0 {
        proof {
            assert(views(out@) =~= route(peers@, source as int, data@));
        }
        return out;
    }
    let mut data = data;
    let ghost payload = data@;
    let destination: u8 = data[0];
    data.set(0, source as u8);
    if (destination as usize) < peers.len() {
        out.push(Delivery { to: peers[destination as usize], frame: Frame::Binary(data) });
        proof {
            assert(views(out@) =~= route(peers@, source as int, payload));
        }
    } else if destination == BROADCAST {
        let me: u64 = peers[source];
        let ghost others = peers@.remove(source as int);
        let mut i: usize = 0;
        while i < peers.len()
            invariant
                i <= peers.len(),
                source < peers@.len(),
                peers@.no_duplicates(),
                me == peers@[source as int],
                others == peers@.remove(source as int),
                data@ == readdressed(payload, source as int),
                out@.len() == (if i <= source { i as int } else { i - 1 }),
                forall|j: int|
                    0 <= j < out@.len() ==> (#[trigger] out@[j])@ == (DeliveryView {
                        to: others[j],
                        frame: FrameView::Binary(data@),
                    }),
            decreases peers.len() - i,
        {
            let to: u64 = peers[i];
            if to != me {
                let copy = data.clone();
                proof {
                    assert(copy@ =~= data@);
                    assert(others[out@.len() as int] == to);
                }
                out.push(Delivery { to, frame: Frame::Binary(copy) });
            }
            i += 1;
        }
        proof {
            assert(views(out@) =~= route(peers@, source as int, payload));
        }
    } else {
        proof {
            assert(views(out@) =~= route(peers@, source as int, payload));
        }
    }
    out
}

} // verus!
