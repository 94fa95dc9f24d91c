use std::collections::VecDeque;

use ws_relay::{Client, Delivery, Frame, Inbound, RequestPacket, ResponsePacket, Server};

/// A registry with its sessions and, for each of them, the frames that
/// were delivered and not read yet.
struct Network {
    server: Server,
    clients: Vec<Client>,
    inboxes: Vec<VecDeque<Frame>>,
}

impl Network {
    fn new() -> Network {
        Network { server: Server::new(), clients: Vec::new(), inboxes: Vec::new() }
    }

    fn connect(&mut self) -> usize {
        let socket = self.clients.len();
        self.clients.push(Client::new(socket as u64));
        self.inboxes.push(VecDeque::new());
        socket
    }

    fn deliver(&mut self, deliveries: Vec<Delivery>) {
        for delivery in deliveries {
            self.inboxes[delivery.to as usize].push_back(delivery.frame);
        }
    }

    fn write_message(&mut self, socket: usize, packet: RequestPacket) {
        let out = self.clients[socket].handle_message(&mut self.server, Inbound::Packet(packet));
        self.deliver(out);
    }

    fn write_binary_message(&mut self, socket: usize, data: Vec<u8>) {
        let out = self.clients[socket].handle_message(&mut self.server, Inbound::Binary(data));
        self.deliver(out);
    }

    fn close_socket(&mut self, socket: usize) {
        let out = self.clients[socket].handle_close(&mut self.server);
        self.deliver(out);
    }

    fn read_message(&mut self, socket: usize) -> ResponsePacket {
        match self.inboxes[socket].pop_front() {
            Some(Frame::Text(packet)) => packet,
            unknown => panic!("no control packet: {:?}", unknown),
        }
    }

    fn read_binary_message(&mut self, socket: usize) -> Vec<u8> {
        match self.inboxes[socket].pop_front() {
            Some(Frame::Binary(data)) => data,
            unknown => panic!("no binary frame: {:?}", unknown),
        }
    }

    fn read_error(&mut self, socket: usize) -> String {
        match self.read_message(socket) {
            ResponsePacket::Error { message } => message,
            unknown => panic!("pattern doesn't match: {:?}", unknown),
        }
    }

    fn read_create(&mut self, socket: usize) -> String {
        match self.read_message(socket) {
            ResponsePacket::Create { id } => id,
            unknown => panic!("pattern doesn't match: {:?}", unknown),
        }
    }

    fn read_join(&mut self, socket: usize) -> Option<usize> {
        match self.read_message(socket) {
            ResponsePacket::Join { size } => size,
            unknown => panic!("pattern doesn't match: {:?}", unknown),
        }
    }

    fn read_leave(&mut self, socket: usize) -> usize {
        match self.read_message(socket) {
            ResponsePacket::Leave { index } => index,
            unknown => panic!("pattern doesn't match: {:?}", unknown),
        }
    }

    fn is_quiet(&self) -> bool {
        self.inboxes.iter().all(|inbox| inbox.is_empty())
    }

    /// Connects `n` sockets: the first creates a room of that size, the
    /// others join it. Every notice is read and compared on the way.
    fn fill_room(&mut self, n: usize) -> (Vec<usize>, String) {
        let mut sockets = vec![];
        let mut room_id = String::new();
        for expected_size in 0..n {
            let socket = self.connect();
            if expected_size == 0 {
                self.write_message(socket, RequestPacket::Create { size: Some(n) });
                room_id = self.read_create(socket);
                sockets.push(socket);
            } else {
                self.write_message(socket, RequestPacket::Join { id: room_id.clone() });
                sockets.push(socket);
                let size = sockets.len() - 1;
                for (index, socket) in sockets.clone().into_iter().enumerate() {
                    if index == size {
                        assert_eq!(Some(expected_size), self.read_join(socket));
                    } else {
                        assert_eq!(None, self.read_join(socket));
                    }
                }
            }
        }
        (sockets, room_id)
    }
}

#[test]
fn errors() {
    let mut net = Network::new();

    let socket = net.connect();

    net.write_message(socket, RequestPacket::Create { size: Some(0) });
    assert_eq!("The room size is not valid", net.read_error(socket));

    net.write_message(socket, RequestPacket::Create { size: Some(255) });
    assert_eq!("The room size is not valid", net.read_error(socket));

    net.write_message(socket, RequestPacket::Create { size: None });
    let room_id = net.read_create(socket);

    let socket_2 = net.connect();

    net.write_message(socket_2, RequestPacket::Join { id: String::new() });
    assert_eq!("The room does not exist.", net.read_error(socket_2));

    net.write_message(socket_2, RequestPacket::Join { id: room_id.clone() });
    assert_eq!(Some(1), net.read_join(socket_2));
    assert_eq!(None, net.read_join(socket));

    let socket_3 = net.connect();

    net.write_message(socket_3, RequestPacket::Join { id: room_id.clone() });
    assert_eq!("The room is full.", net.read_error(socket_3));

    net.close_socket(socket);
    net.close_socket(socket_2);

    net.write_message(socket_3, RequestPacket::Join { id: room_id.clone() });
    assert_eq!("The room does not exist.", net.read_error(socket_3));

    net.write_message(socket_3, RequestPacket::Create { size: Some(1) });
    let room_id = net.read_create(socket_3);

    let socket_4 = net.connect();

    net.write_message(socket_4, RequestPacket::Join { id: room_id });
    assert_eq!("The room is full.", net.read_error(socket_4));

    net.close_socket(socket_3);
    net.close_socket(socket_4);
}

#[test]
fn leaks() {
    let mut net = Network::new();

    let socket_room1 = net.connect();
    let socket_second_room1 = net.connect();

    let socket_room2 = net.connect();
    let socket_second_room2 = net.connect();

    net.write_message(socket_room1, RequestPacket::Create { size: None });
    net.write_message(socket_room2, RequestPacket::Create { size: None });

    let room_1_id = net.read_create(socket_room1);
    let room_2_id = net.read_create(socket_room2);

    net.write_message(socket_second_room1, RequestPacket::Join { id: room_1_id.clone() });

    assert_eq!(Some(1), net.read_join(socket_second_room1));
    assert_eq!(None, net.read_join(socket_room1));

    net.write_message(socket_second_room2, RequestPacket::Join { id: room_2_id.clone() });

    assert_eq!(Some(1), net.read_join(socket_second_room2));
    assert_eq!(None, net.read_join(socket_room2));

    net.write_binary_message(socket_room1, vec![u8::MAX, 0, 1, 2, 3]);
    assert_eq!(vec![0, 0, 1, 2, 3], net.read_binary_message(socket_second_room1));

    net.write_binary_message(socket_room2, vec![u8::MAX, 4, 5, 6, 7]);
    assert_eq!(vec![0, 4, 5, 6, 7], net.read_binary_message(socket_second_room2));

    net.write_binary_message(socket_second_room1, vec![u8::MAX, 0, 1, 2, 3]);
    assert_eq!(vec![1, 0, 1, 2, 3], net.read_binary_message(socket_room1));

    net.write_binary_message(socket_second_room2, vec![u8::MAX, 4, 5, 6, 7]);
    assert_eq!(vec![1, 4, 5, 6, 7], net.read_binary_message(socket_room2));

    net.write_binary_message(socket_room1, vec![1, 0, 1, 2, 3]);
    assert_eq!(vec![0, 0, 1, 2, 3], net.read_binary_message(socket_second_room1));

    net.write_binary_message(socket_room2, vec![1, 4, 5, 6, 7]);
    assert_eq!(vec![0, 4, 5, 6, 7], net.read_binary_message(socket_second_room2));

    net.write_binary_message(socket_second_room1, vec![0, 0, 1, 2, 3]);
    assert_eq!(vec![1, 0, 1, 2, 3], net.read_binary_message(socket_room1));

    net.write_binary_message(socket_second_room2, vec![0, 4, 5, 6, 7]);
    assert_eq!(vec![1, 4, 5, 6, 7], net.read_binary_message(socket_room2));

    net.write_binary_message(socket_room1, vec![0, 0, 1, 2, 3]);
    assert_eq!(vec![0, 0, 1, 2, 3], net.read_binary_message(socket_room1));

    net.write_binary_message(socket_room2, vec![0, 4, 5, 6, 7]);
    assert_eq!(vec![0, 4, 5, 6, 7], net.read_binary_message(socket_room2));

    net.write_binary_message(socket_second_room1, vec![1, 0, 1, 2, 3]);
    assert_eq!(vec![1, 0, 1, 2, 3], net.read_binary_message(socket_second_room1));

    net.write_binary_message(socket_second_room2, vec![1, 4, 5, 6, 7]);
    assert_eq!(vec![1, 4, 5, 6, 7], net.read_binary_message(socket_second_room2));

    assert!(net.is_quiet());

    net.close_socket(socket_room1);
    net.close_socket(socket_room1);
    net.close_socket(socket_second_room1);
    net.close_socket(socket_second_room2);
}

#[test]
fn communication() {
    const N: u8 = u8::MAX - 1;

    let mut net = Network::new();

    let (mut sockets, room_id) = net.fill_room(usize::from(N));

    let socket = net.connect();

    net.write_message(socket, RequestPacket::Join { id: room_id.clone() });
    assert_eq!("The room is full.", net.read_error(socket));

    net.close_socket(socket);

    for expected_source in 0..N {
        let source_socket = sockets[usize::from(expected_source)];

        net.write_binary_message(source_socket, vec![u8::MAX]);
        net.write_binary_message(source_socket, vec![u8::MAX, 0, 1, 2, 3]);

        for expected_destination in 0..N {
            if expected_destination == expected_source {
                continue;
            }

            let destination_socket = sockets[usize::from(expected_destination)];

            assert_eq!(vec![expected_source], net.read_binary_message(destination_socket));
            assert_eq!(
                vec![expected_source, 0, 1, 2, 3],
                net.read_binary_message(destination_socket)
            );
        }
    }

    for expected_source in 0..N {
        for expected_destination in 0..N {
            let source_socket = sockets[usize::from(expected_source)];

            net.write_binary_message(source_socket, vec![expected_destination]);
            net.write_binary_message(source_socket, vec![expected_destination, 0, 1, 2, 3]);

            let destination_socket = sockets[usize::from(expected_destination)];

            assert_eq!(vec![expected_source], net.read_binary_message(destination_socket));
            assert_eq!(
                vec![expected_source, 0, 1, 2, 3],
                net.read_binary_message(destination_socket)
            );
        }
    }

    assert!(net.is_quiet());

    for _ in 0..N {
        let socket = sockets.remove(0);
        net.close_socket(socket);

        for socket in sockets.clone() {
            assert_eq!(0, net.read_leave(socket));
        }
    }

    assert!(net.is_quiet());

    let socket = net.connect();

    net.write_message(socket, RequestPacket::Join { id: room_id.clone() });
    assert_eq!("The room does not exist.", net.read_error(socket));

    net.close_socket(socket);
}

#[test]
fn indices() {
    const N: u8 = u8::MAX - 1;

    let mut net = Network::new();

    for method in ["close", "leave"] {
        for direction in ["first", "last"] {
            let (mut sockets, _) = net.fill_room(usize::from(N));

            for mut expected_index in (0..usize::from(N)).rev() {
                let socket = if direction == "last" {
                    sockets.pop().unwrap()
                } else {
                    sockets.remove(0)
                };

                if direction == "first" {
                    expected_index = 0;
                }

                if method == "leave" {
                    net.write_message(socket, RequestPacket::Leave);
                } else if method == "close" {
                    net.close_socket(socket);
                }

                for socket in sockets.clone() {
                    assert_eq!(expected_index, net.read_leave(socket));
                }

                if method == "leave" {
                    net.close_socket(socket);
                }
            }

            assert!(net.is_quiet());
        }
    }
}

#[test]
fn create_then_join_notifies_both() {
    let mut net = Network::new();
    let a = net.connect();
    let b = net.connect();

    net.write_message(a, RequestPacket::Create { size: None });
    let id = match net.read_message(a) {
        ResponsePacket::Create { id } => id,
        unknown => panic!("pattern doesn't match: {:?}", unknown),
    };
    assert_eq!(Some(id.clone()), net.clients[a].room_id());
    assert_eq!(Some(1), net.server.occupancy(&id));

    net.write_message(b, RequestPacket::Join { id: id.clone() });
    assert_eq!(ResponsePacket::Join { size: Some(1) }, net.read_message(b));
    assert_eq!(ResponsePacket::Join { size: None }, net.read_message(a));
    assert!(net.is_quiet());
    assert_eq!(Some(id.clone()), net.clients[b].room_id());
    assert_eq!(Some(2), net.server.occupancy(&id));
}

#[test]
fn created_identifier_is_a_random_uuid() {
    let mut net = Network::new();
    for _ in 0..50 {
        let socket = net.connect();
        net.write_message(socket, RequestPacket::Create { size: Some(3) });
        let id = net.read_create(socket);

        let parsed = uuid::Uuid::parse_str(&id).unwrap();
        assert_eq!(4, parsed.get_version_num());
        assert_eq!(uuid::Variant::RFC4122, parsed.get_variant());
        assert_eq!(36, id.len());
        assert_eq!(parsed.hyphenated().to_string(), id);
        assert_eq!(id.to_lowercase(), id);
        assert!(net.server.contains_room(&id));
        assert_eq!(Some(1), net.server.occupancy(&id));
    }
}

#[test]
fn invalid_size_leaves_everything_as_it_was() {
    let mut net = Network::new();
    let a = net.connect();

    for size in [0usize, 255, 256, 1000, usize::MAX] {
        net.write_message(a, RequestPacket::Create { size: Some(size) });
        assert_eq!(
            ResponsePacket::Error { message: "The room size is not valid".to_string() },
            net.read_message(a)
        );
        assert_eq!(None, net.clients[a].room_id());
        assert!(!net.server.contains_peer(a as u64));
    }
    assert!(net.is_quiet());

    net.write_message(a, RequestPacket::Create { size: Some(254) });
    let id = net.read_create(a);
    assert_eq!(Some(1), net.server.occupancy(&id));
}

#[test]
fn broadcast_in_a_room_of_three() {
    let mut net = Network::new();
    let (sockets, _) = net.fill_room(3);

    net.write_binary_message(sockets[0], vec![0xFF, 0x0A, 0x0B]);

    assert_eq!(vec![0x00, 0x0A, 0x0B], net.read_binary_message(sockets[1]));
    assert_eq!(vec![0x00, 0x0A, 0x0B], net.read_binary_message(sockets[2]));
    assert!(net.is_quiet());
}

#[test]
fn unicast_rewrites_the_address() {
    let mut net = Network::new();
    let (sockets, _) = net.fill_room(3);

    net.write_binary_message(sockets[2], vec![0x01, 0xAA]);

    assert_eq!(vec![0x02, 0xAA], net.read_binary_message(sockets[1]));
    assert!(net.is_quiet());
}

#[test]
fn reply_with_the_frame_as_received_restores_it() {
    let mut net = Network::new();
    let (sockets, _) = net.fill_room(4);

    net.write_binary_message(sockets[3], vec![1, 9, 8, 7]);
    let received = net.read_binary_message(sockets[1]);
    assert_eq!(vec![3, 9, 8, 7], received);

    net.write_binary_message(sockets[1], received);
    assert_eq!(vec![1, 9, 8, 7], net.read_binary_message(sockets[3]));
    assert!(net.is_quiet());
}

#[test]
fn leave_notices_and_room_removal() {
    let mut net = Network::new();
    let (sockets, id) = net.fill_room(3);
    let (a, b, c) = (sockets[0], sockets[1], sockets[2]);

    net.close_socket(a);
    assert_eq!(ResponsePacket::Leave { index: 0 }, net.read_message(b));
    assert_eq!(ResponsePacket::Leave { index: 0 }, net.read_message(c));
    assert!(net.is_quiet());
    assert_eq!(Some(2), net.server.occupancy(&id));
    assert_eq!(0, net.server.locate(b as u64, &id).unwrap().index);
    assert_eq!(1, net.server.locate(c as u64, &id).unwrap().index);
    assert_eq!(vec![b as u64, c as u64], net.server.locate(c as u64, &id).unwrap().peers);
    assert!(net.server.locate(a as u64, &id).is_none());

    net.write_message(b, RequestPacket::Leave);
    assert_eq!(ResponsePacket::Leave { index: 0 }, net.read_message(c));
    assert!(net.is_quiet());
    assert_eq!(None, net.clients[b].room_id());

    net.close_socket(c);
    assert!(net.is_quiet());
    assert!(!net.server.contains_room(&id));
    assert_eq!(None, net.server.occupancy(&id));
}

#[test]
fn leaving_from_the_middle_reports_that_index() {
    let mut net = Network::new();
    let (sockets, id) = net.fill_room(5);

    net.write_message(sockets[2], RequestPacket::Leave);
    for socket in [sockets[0], sockets[1], sockets[3], sockets[4]] {
        assert_eq!(2, net.read_leave(socket));
    }
    assert!(net.is_quiet());
    assert_eq!(Some(4), net.server.occupancy(&id));

    net.write_binary_message(sockets[4], vec![2, 1]);
    assert_eq!(vec![3, 1], net.read_binary_message(sockets[3]));
}

#[test]
fn requests_while_in_a_room_are_ignored() {
    let mut net = Network::new();
    let (sockets, id) = net.fill_room(2);
    let other = net.connect();
    net.write_message(other, RequestPacket::Create { size: Some(4) });
    let other_id = net.read_create(other);

    for socket in sockets {
        net.write_message(socket, RequestPacket::Create { size: None });
        net.write_message(socket, RequestPacket::Create { size: Some(0) });
        net.write_message(socket, RequestPacket::Join { id: other_id.clone() });
        net.write_message(socket, RequestPacket::Join { id: id.clone() });
        net.write_message(socket, RequestPacket::Join { id: String::new() });

        assert!(net.is_quiet());
        assert_eq!(Some(id.clone()), net.clients[socket].room_id());
    }
    assert_eq!(Some(2), net.server.occupancy(&id));
    assert_eq!(Some(1), net.server.occupancy(&other_id));
}

#[test]
fn frames_from_outside_a_room_go_nowhere() {
    let mut net = Network::new();
    let (_, _) = net.fill_room(3);
    let outsider = net.connect();

    net.write_binary_message(outsider, vec![0, 1, 2]);
    net.write_binary_message(outsider, vec![u8::MAX, 1, 2]);
    net.write_message(outsider, RequestPacket::Leave);
    net.close_socket(outsider);

    assert!(net.is_quiet());
}

#[test]
fn empty_and_misaddressed_frames_are_dropped() {
    let mut net = Network::new();
    let (sockets, _) = net.fill_room(3);

    net.write_binary_message(sockets[0], vec![]);
    net.write_binary_message(sockets[0], vec![3, 1]);
    net.write_binary_message(sockets[0], vec![254, 1]);
    assert!(net.is_quiet());

    let out = net.clients[sockets[0]].handle_message(&mut net.server, Inbound::Other);
    assert!(out.is_empty());
}

#[test]
fn rooms_do_not_share_frames() {
    let mut net = Network::new();
    let (first, _) = net.fill_room(3);
    let (second, _) = net.fill_room(3);

    net.write_binary_message(first[1], vec![u8::MAX, 7]);
    net.write_binary_message(first[1], vec![2, 7]);

    for socket in second {
        assert!(net.inboxes[socket].is_empty());
    }
    assert_eq!(vec![1, 7], net.read_binary_message(first[0]));
    assert_eq!(vec![1, 7], net.read_binary_message(first[2]));
    assert_eq!(vec![1, 7], net.read_binary_message(first[2]));
    assert!(net.is_quiet());
}
