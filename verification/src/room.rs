//! A bounded, ordered collection of peers addressed by position.

use vstd::prelude::*;

verus! {

/// A room of this size is never created: sizes start above it.
pub const MIN_ROOM_SIZE: usize = 0;

/// Sizes stay strictly below this bound, which is also the broadcast address.
pub const MAX_ROOM_SIZE: usize = 255;

/// The size of a room whose creator names none.
pub const DEFAULT_ROOM_SIZE: usize = 2;

/// The mathematical content of a room: its capacity and its peers in index order.
pub struct RoomView {
    pub capacity: nat,
    pub peers: Seq<u64>,
}

impl RoomView {
    /// The capacity lies strictly between the bounds, the occupancy does not
    /// exceed it, and no peer occurs twice.
    pub open spec fn valid(self) -> bool {
        &&& MIN_ROOM_SIZE < self.capacity < MAX_ROOM_SIZE
        &&& self.peers.len() <= self.capacity
        &&& self.peers.no_duplicates()
    }

    pub open spec fn is_full(self) -> bool {
        self.peers.len() >= self.capacity
    }
}

/// Whether `size` may be the capacity of a room.
pub open spec fn valid_size(size: usize) -> bool {
    MIN_ROOM_SIZE < size < MAX_ROOM_SIZE
}

/// The position of `peer` in `peers` is `r`, or `peer` is absent and `r` is `None`.
pub open spec fn is_position(peers: Seq<u64>, peer: u64, r: Option<usize>) -> bool {
    match r {
        Some(i) => {
            &&& i < peers.len()
            &&& peers[i as int] == peer
            &&& forall|j: int| 0 <= j < i ==> peers[j] != peer
        },
        None => !peers.contains(peer),
    }
}

pub struct Room {
    size: usize,
    senders: Vec<u64>,
}

impl View for Room {
    type V = RoomView;

    closed spec fn view(&self) -> RoomView {
        RoomView { capacity: self.size as nat, peers: self.senders@ }
    }
}

impl Room {
    /// An empty room of the given capacity.
    pub fn new(size: usize) -> (room: Room)
        ensures
            room@.capacity == size,
            room@.peers == Seq::<u64>::empty(),
    {
        Room { senders: Vec::new(), size }
    }

    pub fn capacity(&self) -> (size: usize)
        ensures
            size == self@.capacity,
    {
        self.size
    }

    pub fn occupancy(&self) -> (n: usize)
        ensures
            n == self@.peers.len(),
    {
        self.senders.len()
    }

    pub fn is_full(&self) -> (full: bool)
        ensures
            full == self@.is_full(),
    {
        self.senders.len() >= self.size
    }

    /// Appends `peer` and returns the index it was given. A valid room stays
    /// valid when the peer was not in it.
    pub fn insert(&mut self, peer: u64) -> (index: usize)
        requires
            !old(self)@.is_full(),
        ensures
            index == old(self)@.peers.len(),
            final(self)@.capacity == old(self)@.capacity,
            final(self)@.peers == old(self)@.peers.push(peer),
            old(self)@.valid() && !old(self)@.peers.contains(peer) ==> final(self)@.valid(),
    {
        let index: usize = self.senders.len();
        self.senders.push(peer);
        proof {
            if old(self)@.valid() && !old(self)@.peers.contains(peer) {
                lemma_push_keeps_distinct(old(self)@.peers, peer);
            }
        }
        index
    }

    /// Deletes the peer at `index`; the peers behind it move down by one.
    pub fn remove_at(&mut self, index: usize)
        requires
            index < old(self)@.peers.len(),
        ensures
            final(self)@.capacity == old(self)@.capacity,
            final(self)@.peers == old(self)@.peers.remove(index as int),
    {
        self.senders.remove(index);
    }

    /// The index of `peer`, if it is in the room.
    pub fn position_of(&self, peer: u64) -> (r: Option<usize>)
        ensures
            is_position(self@.peers, peer, r),
    {
        let mut i: usize = 0;
        while i < self.senders.len()
            invariant
                i <= self.senders.len(),
                forall|j: int| 0 <= j < i ==> self.senders@[j] != peer,
            decreases self.senders.len() - i,
        {
            if self.senders[i] == peer {
                return Some(i);
            }
            i += 1;
        }
        None
    }

    /// The peers in index order.
    pub fn peers(&self) -> (list: Vec<u64>)
        ensures
            list@ == self@.peers,
    {
        let mut list: Vec<u64> = Vec::new();
        let mut i: usize = 0;
        while i < self.senders.len()
            invariant
                i <= self.senders.len(),
                list@ == self.senders@.take(i as int),
            decreases self.senders.len() - i,
        {
            list.push(self.senders[i]);
            proof {
                assert(self.senders@.take(i + 1) =~= self.senders@.take(i as int).push(
                    self.senders@[i as int],
                ));
            }
            i += 1;
        }
        proof {
            assert(self.senders@.take(i as int) =~= self.senders@);
        }
        list
    }
}

/// A list without duplicates still has none when a peer that was not in it
/// is appended.
pub proof fn lemma_push_keeps_distinct(peers: Seq<u64>, peer: u64)
    requires
        peers.no_duplicates(),
        !peers.contains(peer),
    ensures
        peers.push(peer).no_duplicates(),
{
    let after = peers.push(peer);
    assert forall|i: int, j: int|
        0 <= i < after.len() && 0 <= j < after.len() && i != j implies after[i] != after[j] by {
        if i < peers.len() && j < peers.len() {
            assert(peers[i] != peers[j]);
        } else if i < peers.len() {
            assert(peers.contains(peers[i]));
        } else {
            assert(peers.contains(peers[j]));
        }
    }
}

/// Removing a peer from a valid room leaves a valid room.
pub proof fn lemma_remove_keeps_valid(room: RoomView, index: int)
    requires
        room.valid(),
        0 <= index < room.peers.len(),
    ensures
        (RoomView { capacity: room.capacity, peers: room.peers.remove(index) }).valid(),
        !room.peers.remove(index).contains(room.peers[index]),
{
    let before = room.peers;
    let after = room.peers.remove(index);
    assert forall|i: int, j: int|
        0 <= i < after.len() && 0 <= j < after.len() && i != j implies after[i] != after[j] by {
        let a = if i < index { i } else { i + 1 };
        let b = if j < index { j } else { j + 1 };
        assert(after[i] == before[a]);
        assert(after[j] == before[b]);
    }
    assert forall|i: int| 0 <= i < after.len() implies after[i] != before[index] by {
        let a = if i < index { i } else { i + 1 };
        assert(after[i] == before[a]);
    }
}

} // verus!
