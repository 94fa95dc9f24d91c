//! The registry: every room that exists, under its identifier.

use crate::ident::{fresh_identifier, is_uuid_v4};
use crate::packet::RoomError;
use crate::room::{
    is_position, lemma_push_keeps_distinct, lemma_remove_keeps_valid, valid_size, Room, RoomView,
    DEFAULT_ROOM_SIZE, MAX_ROOM_SIZE, MIN_ROOM_SIZE,
};
use vstd::prelude::*;

verus! {

/// Whether `peer` is a member of some room.
pub open spec fn in_some_room(rooms: Map<Seq<char>, RoomView>, peer: u64) -> bool {
    exists|id: Seq<char>| rooms.dom().contains(id) && #[trigger] rooms[id].peers.contains(peer)
}

/// Whether `peer` is a member of the room called `id`.
pub open spec fn is_member(rooms: Map<Seq<char>, RoomView>, id: Seq<char>, peer: u64) -> bool {
    rooms.dom().contains(id) && rooms[id].peers.contains(peer)
}

/// Every room is valid and occupied, and no peer is in two rooms.
pub open spec fn valid_registry(rooms: Map<Seq<char>, RoomView>) -> bool {
    &&& forall|id: Seq<char>|
        rooms.dom().contains(id) ==> (#[trigger] rooms[id]).valid() && rooms[id].peers.len() > 0
    &&& forall|a: Seq<char>, b: Seq<char>, p: u64|
        rooms.dom().contains(a) && rooms.dom().contains(b) && a != b
            && #[trigger] rooms[a].peers.contains(p) ==> !#[trigger] rooms[b].peers.contains(p)
}

/// Whether some room is registered under a version 4 UUID: only then can a
/// freshly drawn identifier be in use.
pub open spec fn holds_uuid(rooms: Map<Seq<char>, RoomView>) -> bool {
    exists|id: Seq<char>| #[trigger] is_uuid_v4(id) && rooms.dom().contains(id)
}

/// The capacity that a request to create a room asks for.
pub open spec fn requested_size(size: Option<usize>) -> usize {
    match size {
        Some(s) => s,
        None => DEFAULT_ROOM_SIZE,
    }
}

/// A room as it stands right after `peer` created it.
pub open spec fn created_room(size: Option<usize>, peer: u64) -> RoomView {
    RoomView { capacity: requested_size(size) as nat, peers: seq![peer] }
}

/// `room` with `peer` appended.
pub open spec fn joined_room(room: RoomView, peer: u64) -> RoomView {
    RoomView { capacity: room.capacity, peers: room.peers.push(peer) }
}

/// `room` without the peer at `index`.
pub open spec fn left_room(room: RoomView, index: int) -> RoomView {
    RoomView { capacity: room.capacity, peers: room.peers.remove(index) }
}

/// The registry after the peer at `index` has left the room `id`: the room
/// shrinks, and disappears when nobody is left.
pub open spec fn rooms_after_leave(
    rooms: Map<Seq<char>, RoomView>,
    id: Seq<char>,
    index: int,
) -> Map<Seq<char>, RoomView> {
    if rooms[id].peers.len() == 1 {
        rooms.remove(id)
    } else {
        rooms.insert(id, left_room(rooms[id], index))
    }
}

/// Where a peer stands in its room, with the room's peers in index order.
pub struct Membership {
    pub index: usize,
    pub peers: Vec<u64>,
}

spec fn key_at(es: Seq<(Seq<char>, RoomView)>, i: int) -> Seq<char> {
    es[i].0
}

spec fn has_key(es: Seq<(Seq<char>, RoomView)>, k: Seq<char>) -> bool {
    exists|i: int| 0 <= i < es.len() && #[trigger] key_at(es, i) == k
}

spec fn index_of_key(es: Seq<(Seq<char>, RoomView)>, k: Seq<char>) -> int {
    choose|i: int| 0 <= i < es.len() && #[trigger] key_at(es, i) == k
}

spec fn distinct_keys(es: Seq<(Seq<char>, RoomView)>) -> bool {
    forall|i: int, j: int|
        0 <= i < es.len() && 0 <= j < es.len() && i != j ==> #[trigger] key_at(es, i)
            != #[trigger] key_at(es, j)
}

spec fn map_of(es: Seq<(Seq<char>, RoomView)>) -> Map<Seq<char>, RoomView> {
    Map::new(|k: Seq<char>| has_key(es, k), |k: Seq<char>| es[index_of_key(es, k)].1)
}

proof fn lemma_map_of_at(es: Seq<(Seq<char>, RoomView)>, i: int)
    requires
        distinct_keys(es),
        0 <= i < es.len(),
    ensures
        map_of(es).dom().contains(es[i].0),
        map_of(es)[es[i].0] == es[i].1,
{
    let k = es[i].0;
    assert(key_at(es, i) == k);
    assert(has_key(es, k));
    let j = index_of_key(es, k);
    assert(0 <= j < es.len() && key_at(es, j) == k);
    assert(j == i);
}

proof fn lemma_map_of_absent(es: Seq<(Seq<char>, RoomView)>, k: Seq<char>)
    requires
        forall|i: int| 0 <= i < es.len() ==> es[i].0 != k,
    ensures
        !map_of(es).dom().contains(k),
{
    if has_key(es, k) {
        let i = index_of_key(es, k);
        assert(key_at(es, i) == k);
    }
}

proof fn lemma_map_of_push(es: Seq<(Seq<char>, RoomView)>, k: Seq<char>, v: RoomView)
    requires
        distinct_keys(es),
        !map_of(es).dom().contains(k),
    ensures
        distinct_keys(es.push((k, v))),
        map_of(es.push((k, v))) == map_of(es).insert(k, v),
{
    let es2 = es.push((k, v));
    let n = es.len() as int;
    assert forall|i: int, j: int| 0 <= i < es2.len() && 0 <= j < es2.len() && i != j implies key_at(
        es2,
        i,
    ) != key_at(es2, j) by {
        if i < n && j < n {
            assert(key_at(es, i) != key_at(es, j));
        } else if i < n {
            assert(key_at(es, i) == key_at(es2, i));
            if key_at(es, i) == k {
                assert(has_key(es, k));
            }
        } else {
            assert(key_at(es, j) == key_at(es2, j));
            if key_at(es, j) == k {
                assert(has_key(es, k));
            }
        }
    }
    assert(key_at(es2, n) == k);
    assert forall|q: Seq<char>| has_key(es2, q) <==> (q == k || has_key(es, q)) by {
        if has_key(es2, q) {
            let i = index_of_key(es2, q);
            if i < n {
                assert(key_at(es, i) == q);
            }
        }
        if has_key(es, q) {
            let i = index_of_key(es, q);
            assert(key_at(es2, i) == q);
        }
    }
    assert forall|q: Seq<char>| map_of(es2).dom().contains(q) implies map_of(es2)[q] == map_of(
        es,
    ).insert(k, v)[q] by {
        let i = index_of_key(es2, q);
        assert(key_at(es2, i) == q);
        lemma_map_of_at(es2, i);
        if i < n {
            lemma_map_of_at(es, i);
        }
    }
    assert(map_of(es2) =~= map_of(es).insert(k, v));
}

proof fn lemma_map_of_update(es: Seq<(Seq<char>, RoomView)>, at: int, v: RoomView)
    requires
        distinct_keys(es),
        0 <= at < es.len(),
    ensures
        distinct_keys(es.update(at, (es[at].0, v))),
        map_of(es.update(at, (es[at].0, v))) == map_of(es).insert(es[at].0, v),
{
    let k = es[at].0;
    let es2 = es.update(at, (k, v));
    assert forall|i: int| 0 <= i < es.len() implies key_at(es2, i) == key_at(es, i) by {}
    assert forall|i: int, j: int| 0 <= i < es2.len() && 0 <= j < es2.len() && i != j implies key_at(
        es2,
        i,
    ) != key_at(es2, j) by {
        assert(key_at(es, i) != key_at(es, j));
    }
    assert(key_at(es, at) == k);
    assert forall|q: Seq<char>| has_key(es2, q) <==> (q == k || has_key(es, q)) by {
        if has_key(es2, q) {
            let i = index_of_key(es2, q);
            assert(key_at(es, i) == q);
        }
        if has_key(es, q) {
            let i = index_of_key(es, q);
            assert(key_at(es2, i) == q);
        }
    }
    assert forall|q: Seq<char>| map_of(es2).dom().contains(q) implies map_of(es2)[q] == map_of(
        es,
    ).insert(k, v)[q] by {
        let i = index_of_key(es2, q);
        assert(key_at(es2, i) == q);
        lemma_map_of_at(es2, i);
        lemma_map_of_at(es, i);
    }
    assert(map_of(es2) =~= map_of(es).insert(k, v));
}

proof fn lemma_map_of_remove(es: Seq<(Seq<char>, RoomView)>, at: int)
    requires
        distinct_keys(es),
        0 <= at < es.len(),
    ensures
        distinct_keys(es.remove(at)),
        map_of(es.remove(at)) == map_of(es).remove(es[at].0),
{
    let k = es[at].0;
    let es2 = es.remove(at);
    assert forall|i: int| 0 <= i < es2.len() implies key_at(es2, i) == key_at(
        es,
        if i < at {
            i
        } else {
            i + 1
        },
    ) by {}
    assert forall|i: int, j: int| 0 <= i < es2.len() && 0 <= j < es2.len() && i != j implies key_at(
        es2,
        i,
    ) != key_at(es2, j) by {
        let a = if i < at { i } else { i + 1 };
        let b = if j < at { j } else { j + 1 };
        assert(key_at(es, a) != key_at(es, b));
    }
    assert(key_at(es, at) == k);
    assert forall|q: Seq<char>| has_key(es2, q) <==> (q != k && has_key(es, q)) by {
        if has_key(es2, q) {
            let i = index_of_key(es2, q);
            let a = if i < at { i } else { i + 1 };
            assert(key_at(es, a) == q);
            assert(key_at(es, a) != key_at(es, at));
        }
        if q != k && has_key(es, q) {
            let a = index_of_key(es, q);
            let i = if a < at { a } else { a - 1 };
            assert(key_at(es2, i) == q);
        }
    }
    assert forall|q: Seq<char>| map_of(es2).dom().contains(q) implies map_of(es2)[q] == map_of(
        es,
    ).remove(k)[q] by {
        let i = index_of_key(es2, q);
        assert(key_at(es2, i) == q);
        let a = if i < at { i } else { i + 1 };
        lemma_map_of_at(es2, i);
        lemma_map_of_at(es, a);
    }
    assert(map_of(es2) =~= map_of(es).remove(k));
}

/// A peer is in `peers.push(x)` when it is `x` or was in `peers`.
pub proof fn lemma_push_contains(peers: Seq<u64>, x: u64, p: u64)
    ensures
        peers.push(x).contains(p) <==> (p == x || peers.contains(p)),
{
    let pushed = peers.push(x);
    if pushed.contains(p) {
        let i = choose|i: int| 0 <= i < pushed.len() && pushed[i] == p;
        if i < peers.len() {
            assert(peers[i] == p);
        }
    }
    if peers.contains(p) {
        let i = choose|i: int| 0 <= i < peers.len() && peers[i] == p;
        assert(pushed[i] == p);
    }
    if p == x {
        assert(pushed[peers.len() as int] == p);
    }
}

/// A peer of `peers.remove(at)` was in `peers`.
pub proof fn lemma_remove_contains(peers: Seq<u64>, at: int, p: u64)
    requires
        0 <= at < peers.len(),
        peers.remove(at).contains(p),
    ensures
        peers.contains(p),
{
    let rest = peers.remove(at);
    let i = choose|i: int| 0 <= i < rest.len() && rest[i] == p;
    let a = if i < at { i } else { i + 1 };
    assert(peers[a] == p);
}

/// Registering a fresh room for a peer that is in no room keeps the
/// registry valid.
pub proof fn lemma_create_keeps_valid(
    rooms: Map<Seq<char>, RoomView>,
    id: Seq<char>,
    size: Option<usize>,
    peer: u64,
)
    requires
        valid_registry(rooms),
        !in_some_room(rooms, peer),
        !rooms.dom().contains(id),
        valid_size(requested_size(size)),
    ensures
        valid_registry(rooms.insert(id, created_room(size, peer))),
{
    let fresh = created_room(size, peer);
    let after = rooms.insert(id, fresh);
    assert(fresh.peers.len() == 1);
    assert(fresh.peers.no_duplicates());
    assert forall|a: Seq<char>, b: Seq<char>, p: u64|
        after.dom().contains(a) && after.dom().contains(b) && a != b
            && #[trigger] after[a].peers.contains(p) implies !#[trigger] after[b].peers.contains(
        p,
    ) by {
        if a == id {
            assert(p == peer);
            assert(!rooms[b].peers.contains(peer));
        } else if b == id {
            assert(rooms[a].peers.contains(p));
            if fresh.peers.contains(p) {
                assert(p == peer);
            }
        } else {
            assert(rooms[a].peers.contains(p));
        }
    }
}

/// Appending a peer that is in no room to a room with a free place keeps the
/// registry valid.
pub proof fn lemma_join_keeps_valid(rooms: Map<Seq<char>, RoomView>, id: Seq<char>, peer: u64)
    requires
        valid_registry(rooms),
        !in_some_room(rooms, peer),
        rooms.dom().contains(id),
        !rooms[id].is_full(),
    ensures
        valid_registry(rooms.insert(id, joined_room(rooms[id], peer))),
{
    let grown = joined_room(rooms[id], peer);
    let after = rooms.insert(id, grown);
    assert(rooms[id].valid());
    assert(!rooms[id].peers.contains(peer));
    lemma_push_keeps_distinct(rooms[id].peers, peer);
    assert forall|a: Seq<char>, b: Seq<char>, p: u64|
        after.dom().contains(a) && after.dom().contains(b) && a != b
            && #[trigger] after[a].peers.contains(p) implies !#[trigger] after[b].peers.contains(
        p,
    ) by {
        lemma_push_contains(rooms[id].peers, peer, p);
        if a == id {
            if p == peer {
                assert(!rooms[b].peers.contains(peer));
            } else {
                assert(rooms[a].peers.contains(p));
            }
        } else if b == id {
            assert(rooms[a].peers.contains(p));
            assert(p != peer);
        } else {
            assert(rooms[a].peers.contains(p));
        }
    }
}

/// Taking a member out of its room, and the room out of the registry when
/// it was the last, keeps the registry valid and leaves that peer in no room.
pub proof fn lemma_leave_keeps_valid(rooms: Map<Seq<char>, RoomView>, id: Seq<char>, index: int)
    requires
        valid_registry(rooms),
        rooms.dom().contains(id),
        0 <= index < rooms[id].peers.len(),
    ensures
        valid_registry(rooms_after_leave(rooms, id, index)),
        !in_some_room(rooms_after_leave(rooms, id, index), rooms[id].peers[index]),
{
    let after = rooms_after_leave(rooms, id, index);
    let gone = rooms[id].peers[index];
    let rest = left_room(rooms[id], index);
    assert(rooms[id].valid());
    assert(rooms[id].peers.contains(gone));
    lemma_remove_keeps_valid(rooms[id], index);
    assert forall|a: Seq<char>| after.dom().contains(a) implies (#[trigger] after[a]).valid()
        && after[a].peers.len() > 0 by {
        if a != id {
            assert(rooms[a].valid());
        }
    }
    assert forall|a: Seq<char>, p: u64|
        after.dom().contains(a) && #[trigger] after[a].peers.contains(p) implies rooms.dom().contains(
        a,
    ) && rooms[a].peers.contains(p) by {
        if a == id {
            lemma_remove_contains(rooms[id].peers, index, p);
        }
    }
    assert forall|a: Seq<char>, b: Seq<char>, p: u64|
        after.dom().contains(a) && after.dom().contains(b) && a != b
            && #[trigger] after[a].peers.contains(p) implies !#[trigger] after[b].peers.contains(
        p,
    ) by {
        assert(rooms[a].peers.contains(p));
        if after[b].peers.contains(p) {
            assert(rooms[b].peers.contains(p));
        }
    }
    if in_some_room(after, gone) {
        let a = choose|a: Seq<char>|
            after.dom().contains(a) && #[trigger] after[a].peers.contains(gone);
        if a == id {
            assert(!rest.peers.contains(gone));
        } else {
            assert(rooms[a].peers.contains(gone));
        }
    }
}

struct Entry {
    id: String,
    room: Room,
}

spec fn entries_of(rooms: Seq<Entry>) -> Seq<(Seq<char>, RoomView)> {
    Seq::new(rooms.len(), |i: int| (rooms[i].id@, rooms[i].room@))
}

spec fn rooms_of(rooms: Seq<Entry>) -> Map<Seq<char>, RoomView> {
    map_of(entries_of(rooms))
}

/// No identifier is stored twice, and what is stored is a valid registry.
spec fn well_kept(rooms: Seq<Entry>) -> bool {
    distinct_keys(entries_of(rooms)) && valid_registry(rooms_of(rooms))
}

proof fn lemma_nothing_kept()
    ensures
        well_kept(Seq::<Entry>::empty()),
        rooms_of(Seq::<Entry>::empty()) == Map::<Seq<char>, RoomView>::empty(),
{
    let es = entries_of(Seq::<Entry>::empty());
    assert forall|k: Seq<char>| !has_key(es, k) by {
        if has_key(es, k) {
            let i = index_of_key(es, k);
        }
    }
    assert(rooms_of(Seq::<Entry>::empty()) =~= Map::<Seq<char>, RoomView>::empty());
}

fn find(rooms: &Vec<Entry>, id: &String) -> (r: Option<usize>)
    requires
        distinct_keys(entries_of(rooms@)),
    ensures
        match r {
            Some(i) => i < rooms.len() && rooms[i as int].id@ == id@ && rooms_of(
                rooms@,
            ).dom().contains(id@) && rooms_of(rooms@)[id@] == rooms[i as int].room@,
            None => !rooms_of(rooms@).dom().contains(id@),
        },
{
    let mut i: usize = 0;
    while i < rooms.len()
        invariant
            i <= rooms.len(),
            distinct_keys(entries_of(rooms@)),
            forall|j: int| 0 <= j < i ==> rooms[j].id@ != id@,
        decreases rooms.len() - i,
    {
        if rooms[i].id == *id {
            proof {
                lemma_map_of_at(entries_of(rooms@), i as int);
            }
            return Some(i);
        }
        i += 1;
    }
    proof {
        lemma_map_of_absent(entries_of(rooms@), id@);
    }
    None
}

fn find_peer(rooms: &Vec<Entry>, peer: u64) -> (found: bool)
    requires
        distinct_keys(entries_of(rooms@)),
    ensures
        found == in_some_room(rooms_of(rooms@), peer),
{
    let mut i: usize = 0;
    while i < rooms.len()
        invariant
            i <= rooms.len(),
            distinct_keys(entries_of(rooms@)),
            forall|j: int| 0 <= j < i ==> !rooms[j].room@.peers.contains(peer),
        decreases rooms.len() - i,
    {
        if rooms[i].room.position_of(peer).is_some() {
            proof {
                lemma_map_of_at(entries_of(rooms@), i as int);
                assert(rooms_of(rooms@)[rooms[i as int].id@].peers.contains(peer));
            }
            return true;
        }
        i += 1;
    }
    proof {
        let held = rooms_of(rooms@);
        if in_some_room(held, peer) {
            let id = choose|id: Seq<char>|
                held.dom().contains(id) && #[trigger] held[id].peers.contains(peer);
            let j = index_of_key(entries_of(rooms@), id);
            assert(key_at(entries_of(rooms@), j) == id);
            lemma_map_of_at(entries_of(rooms@), j);
        }
    }
    false
}

/// The registry. It is a valid one at all times.
pub struct Server {
    rooms: Vec<Entry>,
}

impl View for Server {
    type V = Map<Seq<char>, RoomView>;

    closed spec fn view(&self) -> Map<Seq<char>, RoomView> {
        rooms_of(self.rooms@)
    }
}

impl Server {
    /// What holds of every registry at all times.
    #[verifier::type_invariant]
    pub closed spec fn well_formed(&self) -> bool {
        well_kept(self.rooms@)
    }

    /// A registry is valid: its rooms are valid and occupied, and no peer is
    /// in two of them.
    pub proof fn lemma_valid(&self)
        requires
            self.well_formed(),
        ensures
            valid_registry(self@),
    {
    }

    /// A registry without rooms.
    pub fn new() -> (server: Server)
        ensures
            server@ == Map::<Seq<char>, RoomView>::empty(),
    {
        proof {
            lemma_nothing_kept();
        }
        Server { rooms: Vec::new() }
    }

    /// Whether `peer` is a member of some room.
    pub fn contains_peer(&self, peer: u64) -> (found: bool)
        ensures
            valid_registry(self@),
            found == in_some_room(self@, peer),
    {
        proof {
            use_type_invariant(self);
        }
        find_peer(&self.rooms, peer)
    }

    /// Whether a room is registered under `id`.
    pub fn contains_room(&self, id: &String) -> (found: bool)
        ensures
            valid_registry(self@),
            found == self@.dom().contains(id@),
    {
        proof {
            use_type_invariant(self);
        }
        find(&self.rooms, id).is_some()
    }

    /// The number of peers in the room `id`, if it exists.
    pub fn occupancy(&self, id: &String) -> (n: Option<usize>)
        ensures
            valid_registry(self@),
            match n {
                Some(n) => self@.dom().contains(id@) && n == self@[id@].peers.len(),
                None => !self@.dom().contains(id@),
            },
    {
        proof {
            use_type_invariant(self);
        }
        match find(&self.rooms, id) {
            Some(i) => Some(self.rooms[i].room.occupancy()),
            None => None,
        }
    }

    /// Where `peer` stands in the room `id`, with that room's peers, if it is
    /// a member of it.
    pub fn locate(&self, peer: u64, id: &String) -> (r: Option<Membership>)
        ensures
            valid_registry(self@),
            match r {
                Some(m) => is_member(self@, id@, peer) && is_position(
                    self@[id@].peers,
                    peer,
                    Some(m.index),
                ) && m.peers@ == self@[id@].peers,
                None => !is_member(self@, id@, peer),
            },
    {
        proof {
            use_type_invariant(self);
        }
        match find(&self.rooms, id) {
            Some(i) => {
                match self.rooms[i].room.position_of(peer) {
                    Some(index) => Some(Membership { index, peers: self.rooms[i].room.peers() }),
                    None => None,
                }
            },
            None => None,
        }
    }

    /// Registers a room under `id` with `peer` as its only member, unless
    /// the peer is in a room already, the size is out of bounds or the
    /// identifier is in use.
    pub fn create_room_with_id(&mut self, peer: u64, size: Option<usize>, id: String) -> (r: Result<
        Option<String>,
        RoomError,
    >)
        ensures
            valid_registry(old(self)@),
            valid_registry(final(self)@),
            match r {
                Ok(None) => in_some_room(old(self)@, peer) && final(self)@ == old(self)@,
                Err(e) => !in_some_room(old(self)@, peer) && final(self)@ == old(self)@ && (
                if valid_size(requested_size(size)) {
                    e == RoomError::IdentifierTaken && old(self)@.dom().contains(id@)
                } else {
                    e == RoomError::InvalidSize
                }),
                Ok(Some(made)) => !in_some_room(old(self)@, peer) && valid_size(
                    requested_size(size),
                ) && !old(self)@.dom().contains(id@) && made@ == id@ && final(self)@ == old(
                    self,
                )@.insert(id@, created_room(size, peer)),
            },
    {
        proof {
            use_type_invariant(&*self);
        }
        if find_peer(&self.rooms, peer) {
            return Ok(None);
        }
        let capacity: usize = match size {
            Some(s) => s,
            None => DEFAULT_ROOM_SIZE,
        };
        if capacity == MIN_ROOM_SIZE || capacity >= MAX_ROOM_SIZE {
            return Err(RoomError::InvalidSize);
        }
        if find(&self.rooms, &id).is_some() {
            return Err(RoomError::IdentifierTaken);
        }
        let mut room = Room::new(capacity);
        room.insert(peer);
        let made = id.clone();
        let mut rooms: Vec<Entry> = Vec::new();
        proof {
            lemma_nothing_kept();
        }
        std::mem::swap(&mut rooms, &mut self.rooms);
        rooms.push(Entry { id, room });
        proof {
            let before = old(self).rooms@;
            assert(room@.peers =~= seq![peer]);
            assert(room@ == created_room(size, peer));
            assert(entries_of(rooms@) =~= entries_of(before).push((made@, room@)));
            lemma_map_of_push(entries_of(before), made@, room@);
            lemma_create_keeps_valid(old(self)@, made@, size, peer);
        }
        self.rooms = rooms;
        Ok(Some(made))
    }

    /// Registers a room under a fresh identifier with `peer` as its only
    /// member, unless the peer is in a room already or the size is out of
    /// bounds. Should the fresh identifier be in use, nothing changes; where
    /// no room is registered under a UUID, that cannot happen.
    pub fn create_room(&mut self, peer: u64, size: Option<usize>) -> (r: Result<
        Option<String>,
        RoomError,
    >)
        ensures
            valid_registry(old(self)@),
            valid_registry(final(self)@),
            match r {
                Ok(None) => in_some_room(old(self)@, peer) && final(self)@ == old(self)@,
                Err(e) => !in_some_room(old(self)@, peer) && final(self)@ == old(self)@ && (
                if valid_size(requested_size(size)) {
                    e == RoomError::IdentifierTaken && holds_uuid(old(self)@)
                } else {
                    e == RoomError::InvalidSize
                }),
                Ok(Some(made)) => !in_some_room(old(self)@, peer) && valid_size(
                    requested_size(size),
                ) && is_uuid_v4(made@) && !old(self)@.dom().contains(made@) && final(self)@
                    == old(self)@.insert(made@, created_room(size, peer)),
            },
    {
        proof {
            use_type_invariant(&*self);
        }
        if find_peer(&self.rooms, peer) {
            return Ok(None);
        }
        let capacity: usize = match size {
            Some(s) => s,
            None => DEFAULT_ROOM_SIZE,
        };
        if capacity == MIN_ROOM_SIZE || capacity >= MAX_ROOM_SIZE {
            return Err(RoomError::InvalidSize);
        }
        let id = fresh_identifier();
        let ghost drawn = id@;
        let r = self.create_room_with_id(peer, size, id);
        proof {
            if r.is_err() {
                assert(is_uuid_v4(drawn) && old(self)@.dom().contains(drawn));
            }
        }
        r
    }

    /// Appends `peer` to the room `id`, unless the peer is in a room already,
    /// the room does not exist or it is full. On success the result holds the
    /// index given to the peer and the room's peers, the new one included.
    pub fn join_room(&mut self, peer: u64, id: &String) -> (r: Result<Option<Membership>, RoomError>)
        ensures
            valid_registry(old(self)@),
            valid_registry(final(self)@),
            match r {
                Ok(None) => in_some_room(old(self)@, peer) && final(self)@ == old(self)@,
                Err(e) => !in_some_room(old(self)@, peer) && final(self)@ == old(self)@ && (
                if old(self)@.dom().contains(id@) {
                    e == RoomError::RoomFull && old(self)@[id@].is_full()
                } else {
                    e == RoomError::UnknownRoom
                }),
                Ok(Some(m)) => !in_some_room(old(self)@, peer) && old(self)@.dom().contains(id@)
                    && !old(self)@[id@].is_full() && m.index == old(self)@[id@].peers.len()
                    && m.peers@ == old(self)@[id@].peers.push(peer) && final(self)@ == old(
                    self,
                )@.insert(id@, joined_room(old(self)@[id@], peer)),
            },
    {
        proof {
            use_type_invariant(&*self);
        }
        if find_peer(&self.rooms, peer) {
            return Ok(None);
        }
        let at: usize = match find(&self.rooms, id) {
            Some(i) => i,
            None => {
                return Err(RoomError::UnknownRoom);
            },
        };
        if self.rooms[at].room.is_full() {
            return Err(RoomError::RoomFull);
        }
        assert(self@[id@].valid());
        assert(!self@[id@].peers.contains(peer));
        let mut rooms: Vec<Entry> = Vec::new();
        proof {
            lemma_nothing_kept();
        }
        std::mem::swap(&mut rooms, &mut self.rooms);
        let index: usize = rooms[at].room.insert(peer);
        let peers = rooms[at].room.peers();
        proof {
            let before = old(self).rooms@;
            let grown = joined_room(old(self)@[id@], peer);
            assert(rooms[at as int].room@ == grown);
            assert(entries_of(rooms@) =~= entries_of(before).update(at as int, (id@, grown)));
            lemma_map_of_update(entries_of(before), at as int, grown);
            lemma_join_keeps_valid(old(self)@, id@, peer);
        }
        self.rooms = rooms;
        Ok(Some(Membership { index, peers }))
    }

    /// Takes `peer` out of the room `id`, if it is a member of it, and drops
    /// the room when nobody is left. The result holds the index the peer had
    /// and the peers that remain.
    pub fn leave_room(&mut self, peer: u64, id: &String) -> (r: Option<Membership>)
        ensures
            valid_registry(old(self)@),
            valid_registry(final(self)@),
            match r {
                None => !is_member(old(self)@, id@, peer) && final(self)@ == old(self)@,
                Some(m) => is_member(old(self)@, id@, peer) && is_position(
                    old(self)@[id@].peers,
                    peer,
                    Some(m.index),
                ) && m.peers@ == old(self)@[id@].peers.remove(m.index as int) && final(self)@
                    == rooms_after_leave(old(self)@, id@, m.index as int) && !in_some_room(
                    final(self)@,
                    peer,
                ),
            },
    {
        proof {
            use_type_invariant(&*self);
        }
        let at: usize = match find(&self.rooms, id) {
            Some(i) => i,
            None => {
                return None;
            },
        };
        let index: usize = match self.rooms[at].room.position_of(peer) {
            Some(i) => i,
            None => {
                return None;
            },
        };
        let mut rooms: Vec<Entry> = Vec::new();
        proof {
            lemma_nothing_kept();
        }
        std::mem::swap(&mut rooms, &mut self.rooms);
        rooms[at].room.remove_at(index);
        let peers = rooms[at].room.peers();
        proof {
            let before = old(self).rooms@;
            let rest = left_room(old(self)@[id@], index as int);
            assert(rooms[at as int].room@ == rest);
            assert(entries_of(rooms@) =~= entries_of(before).update(at as int, (id@, rest)));
            lemma_map_of_update(entries_of(before), at as int, rest);
            lemma_leave_keeps_valid(old(self)@, id@, index as int);
        }
        if peers.len() == 0 {
            let ghost shrunk = entries_of(rooms@);
            rooms.remove(at);
            proof {
                assert(entries_of(rooms@) =~= shrunk.remove(at as int));
                lemma_map_of_remove(shrunk, at as int);
                assert(rooms_of(rooms@) =~= old(self)@.remove(id@));
            }
        }
        self.rooms = rooms;
        Some(Membership { index, peers })
    }
}

} // verus!
