use ws_relay::{Client, Room, RoomError, Server};
use ws_relay::{Delivery, Frame, ResponsePacket};

#[test]
fn room_gives_indices_in_order_of_arrival() {
    let mut room = Room::new(3);
    assert_eq!(3, room.capacity());
    assert_eq!(0, room.occupancy());
    assert!(!room.is_full());

    assert_eq!(0, room.insert(40));
    assert_eq!(1, room.insert(10));
    assert_eq!(2, room.insert(30));
    assert!(room.is_full());
    assert_eq!(vec![40, 10, 30], room.peers());
    assert_eq!(Some(1), room.position_of(10));
    assert_eq!(None, room.position_of(20));
}

#[test]
fn room_shifts_indices_down_on_removal() {
    let mut room = Room::new(4);
    room.insert(7);
    room.insert(8);
    room.insert(9);

    room.remove_at(0);

    assert_eq!(vec![8, 9], room.peers());
    assert_eq!(Some(0), room.position_of(8));
    assert_eq!(Some(1), room.position_of(9));
    assert_eq!(None, room.position_of(7));
    assert_eq!(2, room.occupancy());
    assert_eq!(4, room.capacity());
}

#[test]
fn error_wording_is_exact() {
    assert_eq!("The room size is not valid", RoomError::InvalidSize.message());
    assert_eq!(
        "A room with that identifier already exists.",
        RoomError::IdentifierTaken.message()
    );
    assert_eq!("The room does not exist.", RoomError::UnknownRoom.message());
    assert_eq!("The room is full.", RoomError::RoomFull.message());
    assert_eq!(
        ResponsePacket::Error { message: "The room is full.".to_string() },
        RoomError::RoomFull.packet()
    );
}

#[test]
fn new_registry_is_empty() {
    let server = Server::new();
    assert!(!server.contains_room(&String::new()));
    assert!(!server.contains_peer(0));
    assert_eq!(None, server.occupancy(&"room".to_string()));
    assert!(server.locate(0, &"room".to_string()).is_none());
}

#[test]
fn create_uses_the_default_size_of_two() {
    let mut server = Server::new();
    let id = server.create_room(1, None).unwrap().unwrap();

    let joined = server.join_room(2, &id).unwrap().unwrap();
    assert_eq!(1, joined.index);
    assert_eq!(vec![1, 2], joined.peers);
    assert_eq!(Err(RoomError::RoomFull), server.join_room(3, &id).map(|m| m.map(|m| m.index)));
}

#[test]
fn create_checks_the_size_bounds() {
    let mut server = Server::new();
    assert_eq!(Err(RoomError::InvalidSize), server.create_room(1, Some(0)));
    assert_eq!(Err(RoomError::InvalidSize), server.create_room(1, Some(255)));
    assert_eq!(Err(RoomError::InvalidSize), server.create_room(1, Some(usize::MAX)));
    assert!(!server.contains_peer(1));

    assert!(matches!(server.create_room(1, Some(1)), Ok(Some(_))));
    assert!(matches!(server.create_room(2, Some(254)), Ok(Some(_))));
}

#[test]
fn create_with_an_identifier_in_use_is_refused() {
    let mut server = Server::new();
    let id = "6d1f2c7e-58a0-4b6e-9c55-0f3a2b1c4d5e".to_string();

    assert_eq!(Ok(Some(id.clone())), server.create_room_with_id(1, Some(3), id.clone()));
    assert_eq!(
        Err(RoomError::IdentifierTaken),
        server.create_room_with_id(2, Some(3), id.clone())
    );
    assert_eq!(Some(1), server.occupancy(&id));
    assert!(!server.contains_peer(2));

    let mut client = Client::new(2);
    let out = client.handle_create_room_with_id(&mut server, None, id.clone());
    assert_eq!(
        vec![Delivery {
            to: 2,
            frame: Frame::Text(ResponsePacket::Error {
                message: "A room with that identifier already exists.".to_string()
            }),
        }],
        out
    );
    assert_eq!(None, client.room_id());
}

#[test]
fn a_member_is_checked_before_the_size() {
    let mut server = Server::new();
    let id = server.create_room(1, Some(5)).unwrap().unwrap();

    assert_eq!(Ok(None), server.create_room(1, Some(0)));
    assert_eq!(Ok(None), server.create_room_with_id(1, Some(0), id.clone()));
    assert!(matches!(server.join_room(1, &"nowhere".to_string()), Ok(None)));
    assert_eq!(Some(1), server.occupancy(&id));
}

#[test]
fn join_reports_unknown_and_full_rooms() {
    let mut server = Server::new();
    let id = server.create_room(1, Some(1)).unwrap().unwrap();

    assert!(matches!(server.join_room(2, &String::new()), Err(RoomError::UnknownRoom)));
    assert!(matches!(server.join_room(2, &id.to_uppercase()), Err(RoomError::UnknownRoom)));
    assert!(matches!(server.join_room(2, &id), Err(RoomError::RoomFull)));
    assert!(!server.contains_peer(2));
}

#[test]
fn leave_returns_the_index_and_those_who_remain() {
    let mut server = Server::new();
    let id = server.create_room(10, Some(4)).unwrap().unwrap();
    server.join_room(11, &id).unwrap();
    server.join_room(12, &id).unwrap();

    assert!(server.leave_room(13, &id).is_none());
    assert!(server.leave_room(11, &"nowhere".to_string()).is_none());

    let left = server.leave_room(11, &id).unwrap();
    assert_eq!(1, left.index);
    assert_eq!(vec![10, 12], left.peers);
    assert!(!server.contains_peer(11));

    let left = server.leave_room(10, &id).unwrap();
    assert_eq!(0, left.index);
    assert_eq!(vec![12], left.peers);

    let left = server.leave_room(12, &id).unwrap();
    assert_eq!(0, left.index);
    assert!(left.peers.is_empty());
    assert!(!server.contains_room(&id));
}

#[test]
fn a_peer_that_left_can_join_again_at_the_end() {
    let mut server = Server::new();
    let id = server.create_room(1, Some(3)).unwrap().unwrap();
    server.join_room(2, &id).unwrap();
    server.leave_room(1, &id).unwrap();

    let joined = server.join_room(1, &id).unwrap().unwrap();
    assert_eq!(1, joined.index);
    assert_eq!(vec![2, 1], joined.peers);
}

#[test]
fn a_session_with_a_stale_room_changes_nothing() {
    let mut server = Server::new();
    let mut first = Client::new(5);
    let mut twin = Client::new(5);

    let out = first.handle_create_room(&mut server, None);
    assert_eq!(1, out.len());
    let id = first.room_id().unwrap();

    let out = twin.handle_create_room(&mut server, None);
    assert!(out.is_empty());
    assert_eq!(None, twin.room_id());
    assert!(twin.handle_leave_room(&mut server).is_empty());
    assert_eq!(Some(1), server.occupancy(&id));

    assert!(first.handle_close(&mut server).is_empty());
    assert_eq!(None, first.room_id());
    assert!(!server.contains_room(&id));
    assert_eq!(5, first.sender());
}
