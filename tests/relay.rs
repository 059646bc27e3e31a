use relay_server::ids::{Channel, ClientId, Message, Room};
use relay_server::protocol::{
    frame_line, read_frame, relay_text, ClientOperation, Frame, ServerOperation, MAX_FRAME_LEN,
};
use relay_server::registry::{Client, Registry, RegistryError};
use relay_server::session::{
    route, settle_fanout, teardown, Enqueue, Session, SessionAction, SessionEvent, SessionState,
};

fn room(name: &str) -> Room {
    Room(name.to_string())
}

fn message_op(r: &str, c: &str, text: &str) -> ClientOperation {
    ClientOperation::Message {
        room: room(r),
        channel: Channel(c.to_string()),
        message: Message(text.to_string()),
    }
}

fn sorted(mut v: Vec<ClientId>) -> Vec<ClientId> {
    v.sort_by_key(|c| c.0);
    v
}

fn active(reg: &mut Registry<u32>, id: u128, tx: u32) -> Session {
    let mut s = Session::new(ClientId(id));
    assert!(s.open(reg, tx).is_ok());
    assert_eq!(s.state(), SessionState::Active);
    s
}

#[test]
fn new_ids_are_version_four_and_distinct() {
    let a = ClientId::new();
    let b = ClientId::new();
    assert_eq!((a.get() >> 76) & 0xF, 4);
    assert_eq!((a.get() >> 62) & 0x3, 2);
    assert_ne!(a, b);
}

#[test]
fn get_returns_the_value() {
    assert_eq!(ClientId(42).get(), 42);
}

#[test]
fn names_deref_to_their_text() {
    assert_eq!(room("raid1").as_str(), "raid1");
    assert_eq!(Channel("main".to_string()).len(), 4);
    assert_eq!(Message("pull".to_string()).as_str(), "pull");
    assert_eq!(room("raid1").copy(), room("raid1"));
}

#[test]
fn client_new_keeps_its_fields() {
    let c = Client::new(ClientId(7), 70u32);
    assert_eq!(c.clientId, ClientId(7));
    assert_eq!(c.tx, 70);
}

#[test]
fn register_and_lookup() {
    let mut reg: Registry<u32> = Registry::new();
    assert_eq!(reg.lookup(ClientId(1)), None);
    assert_eq!(reg.register(ClientId(1), 10), Ok(()));
    assert_eq!(reg.lookup(ClientId(1)), Some(&10));
    assert_eq!(reg.lookup(ClientId(2)), None);
}

#[test]
fn duplicate_registration_is_refused() {
    let mut reg: Registry<u32> = Registry::new();
    assert_eq!(reg.register(ClientId(1), 10), Ok(()));
    assert_eq!(reg.register(ClientId(1), 11), Err(RegistryError::DuplicateClient));
    assert_eq!(reg.lookup(ClientId(1)), Some(&10));
}

#[test]
fn join_is_idempotent_and_leave_removes() {
    let mut reg: Registry<u32> = Registry::new();
    reg.register(ClientId(1), 10).unwrap();
    reg.register(ClientId(2), 20).unwrap();
    reg.join_room(ClientId(1), &room("raid1"));
    reg.join_room(ClientId(1), &room("raid1"));
    reg.join_room(ClientId(2), &room("raid1"));
    assert_eq!(sorted(reg.members_of(&room("raid1"))), vec![ClientId(1), ClientId(2)]);
    reg.leave_room(ClientId(1), &room("raid1"));
    assert_eq!(reg.members_of(&room("raid1")), vec![ClientId(2)]);
    reg.leave_room(ClientId(1), &room("raid1"));
    reg.leave_room(ClientId(1), &room("nowhere"));
    assert_eq!(reg.members_of(&room("raid1")), vec![ClientId(2)]);
    assert_eq!(reg.members_of(&room("nowhere")), vec![]);
}

#[test]
fn empty_room_name_is_a_room() {
    let mut reg: Registry<u32> = Registry::new();
    reg.register(ClientId(1), 10).unwrap();
    reg.join_room(ClientId(1), &room(""));
    assert_eq!(reg.members_of(&room("")), vec![ClientId(1)]);
    assert_eq!(reg.members_of(&room("raid1")), vec![]);
}

#[test]
fn only_live_clients_join() {
    let mut reg: Registry<u32> = Registry::new();
    reg.join_room(ClientId(9), &room("raid1"));
    assert_eq!(reg.members_of(&room("raid1")), vec![]);
}

#[test]
fn deregister_leaves_nothing_behind() {
    let mut reg: Registry<u32> = Registry::new();
    reg.register(ClientId(1), 10).unwrap();
    reg.register(ClientId(2), 20).unwrap();
    reg.join_room(ClientId(1), &room("a"));
    reg.join_room(ClientId(1), &room("b"));
    reg.join_room(ClientId(2), &room("b"));
    assert!(reg.deregister(ClientId(1)));
    assert_eq!(reg.lookup(ClientId(1)), None);
    assert_eq!(reg.members_of(&room("a")), vec![]);
    assert_eq!(reg.members_of(&room("b")), vec![ClientId(2)]);
    assert_eq!(reg.lookup(ClientId(2)), Some(&20));
}

#[test]
fn teardown_twice_is_teardown_once() {
    let mut reg: Registry<u32> = Registry::new();
    reg.register(ClientId(1), 10).unwrap();
    reg.register(ClientId(2), 20).unwrap();
    reg.join_room(ClientId(1), &room("raid1"));
    reg.join_room(ClientId(2), &room("raid1"));
    assert!(teardown(&mut reg, ClientId(1)));
    assert!(!teardown(&mut reg, ClientId(1)));
    assert_eq!(reg.lookup(ClientId(1)), None);
    assert_eq!(reg.members_of(&room("raid1")), vec![ClientId(2)]);
    assert_eq!(reg.lookup(ClientId(2)), Some(&20));
}

#[test]
fn identifier_can_register_again_after_teardown() {
    let mut reg: Registry<u32> = Registry::new();
    reg.register(ClientId(1), 10).unwrap();
    assert!(teardown(&mut reg, ClientId(1)));
    assert_eq!(reg.register(ClientId(1), 11), Ok(()));
    assert_eq!(reg.lookup(ClientId(1)), Some(&11));
}

#[test]
fn route_reaches_other_members_only() {
    let mut reg: Registry<u32> = Registry::new();
    for id in 1..=4u128 {
        reg.register(ClientId(id), id as u32).unwrap();
    }
    reg.join_room(ClientId(1), &room("raid1"));
    reg.join_room(ClientId(2), &room("raid1"));
    reg.join_room(ClientId(3), &room("raid1"));
    reg.join_room(ClientId(4), &room("other"));
    let d = route(
        &reg,
        ClientId(1),
        &room("raid1"),
        &Channel("main".to_string()),
        &Message("pull".to_string()),
    );
    assert_eq!(sorted(d.recipients), vec![ClientId(2), ClientId(3)]);
    assert_eq!(d.text, "pull RESPONSE");
}

#[test]
fn route_to_an_unknown_room_reaches_nobody() {
    let mut reg: Registry<u32> = Registry::new();
    reg.register(ClientId(1), 1).unwrap();
    let d = route(
        &reg,
        ClientId(1),
        &room("ghost"),
        &Channel("main".to_string()),
        &Message("hi".to_string()),
    );
    assert!(d.recipients.is_empty());
}

#[test]
fn channel_does_not_narrow_delivery() {
    let mut reg: Registry<u32> = Registry::new();
    reg.register(ClientId(1), 1).unwrap();
    reg.register(ClientId(2), 2).unwrap();
    reg.join_room(ClientId(1), &room("raid1"));
    reg.join_room(ClientId(2), &room("raid1"));
    let a = route(&reg, ClientId(1), &room("raid1"), &Channel("main".to_string()), &Message("x".to_string()));
    let b = route(&reg, ClientId(1), &room("raid1"), &Channel("loot".to_string()), &Message("x".to_string()));
    assert_eq!(a.recipients, vec![ClientId(2)]);
    assert_eq!(b.recipients, vec![ClientId(2)]);
}

#[test]
fn fanout_tears_down_full_and_gone_queues() {
    let mut reg: Registry<u32> = Registry::new();
    for id in 1..=4u128 {
        reg.register(ClientId(id), id as u32).unwrap();
        reg.join_room(ClientId(id), &room("raid1"));
    }
    let recipients = vec![ClientId(2), ClientId(3), ClientId(4)];
    let outcomes = vec![Enqueue::Sent, Enqueue::Full, Enqueue::Gone];
    let closed = settle_fanout(&mut reg, &recipients, &outcomes);
    assert_eq!(sorted(closed), vec![ClientId(3), ClientId(4)]);
    assert_eq!(reg.lookup(ClientId(2)), Some(&2));
    assert_eq!(reg.lookup(ClientId(3)), None);
    assert_eq!(reg.lookup(ClientId(4)), None);
    assert_eq!(sorted(reg.members_of(&room("raid1"))), vec![ClientId(1), ClientId(2)]);
}

#[test]
fn fanout_tears_down_each_client_once() {
    let mut reg: Registry<u32> = Registry::new();
    reg.register(ClientId(5), 5).unwrap();
    let recipients = vec![ClientId(5), ClientId(5), ClientId(6)];
    let outcomes = vec![Enqueue::Full, Enqueue::Gone, Enqueue::Full];
    let closed = settle_fanout(&mut reg, &recipients, &outcomes);
    assert_eq!(closed, vec![ClientId(5)]);
    assert_eq!(reg.lookup(ClientId(5)), None);
}

#[test]
fn read_frame_classifies_lines() {
    assert!(matches!(read_frame(&vec![]), Frame::End));
    match read_frame(&b"{\"a\":1}\n".to_vec()) {
        Frame::Line(body) => assert_eq!(body, b"{\"a\":1}".to_vec()),
        _ => panic!("expected a line"),
    }
    match read_frame(&b"abc\r\n".to_vec()) {
        Frame::Line(body) => assert_eq!(body, b"abc".to_vec()),
        _ => panic!("expected a line"),
    }
    match read_frame(&b"tail".to_vec()) {
        Frame::Line(body) => assert_eq!(body, b"tail".to_vec()),
        _ => panic!("expected a line"),
    }
    match read_frame(&b"\n".to_vec()) {
        Frame::Line(body) => assert!(body.is_empty()),
        _ => panic!("expected a line"),
    }
}

#[test]
fn read_frame_refuses_oversized_lines() {
    let at_limit = vec![b'x'; MAX_FRAME_LEN];
    assert!(matches!(read_frame(&at_limit), Frame::Line(_)));
    let over = vec![b'x'; MAX_FRAME_LEN + 1];
    assert!(matches!(read_frame(&over), Frame::Oversized));
}

#[test]
fn frame_line_and_relay_text() {
    assert_eq!(frame_line(&"abc".to_string()), "abc\n");
    assert_eq!(frame_line(&String::new()), "\n");
    assert_eq!(relay_text(&Message("pull".to_string())), "pull RESPONSE");
    assert_eq!(relay_text(&Message(String::new())), " RESPONSE");
}

#[test]
fn open_refuses_a_live_identifier() {
    let mut reg: Registry<u32> = Registry::new();
    let _x = active(&mut reg, 1, 10);
    let mut again = Session::new(ClientId(1));
    assert_eq!(again.open(&mut reg, 11), Err(RegistryError::DuplicateClient));
    assert_eq!(again.state(), SessionState::Closed);
    assert_eq!(reg.lookup(ClientId(1)), Some(&10));
}

#[test]
fn session_that_is_not_active_closes() {
    let mut reg: Registry<u32> = Registry::new();
    let mut s = Session::new(ClientId(3));
    assert_eq!(s.id(), ClientId(3));
    assert_eq!(s.state(), SessionState::Connecting);
    let a = s.handle(&mut reg, SessionEvent::Frame(ClientOperation::ConnectAttempt));
    assert!(matches!(a, SessionAction::Close));
    assert_eq!(s.state(), SessionState::Closed);
}

#[test]
fn session_torn_down_elsewhere_closes() {
    let mut reg: Registry<u32> = Registry::new();
    let mut s = active(&mut reg, 1, 10);
    assert!(teardown(&mut reg, ClientId(1)));
    let a = s.handle(&mut reg, SessionEvent::Frame(ClientOperation::RoomJoin(room("raid1"))));
    assert!(matches!(a, SessionAction::Close));
    assert_eq!(reg.members_of(&room("raid1")), vec![]);
}

#[test]
fn scenario_connect_attempt_is_approved() {
    let mut reg: Registry<u32> = Registry::new();
    let x = ClientId::new();
    let mut s = Session::new(x);
    s.open(&mut reg, 1).unwrap();
    match s.handle(&mut reg, SessionEvent::Frame(ClientOperation::ConnectAttempt)) {
        SessionAction::Reply(ServerOperation::ClientConnectApproved(id)) => assert_eq!(id, x),
        _ => panic!("expected an approval"),
    }
    assert_eq!(s.state(), SessionState::Active);
}

#[test]
fn scenario_message_reaches_the_other_member() {
    let mut reg: Registry<u32> = Registry::new();
    let mut x = active(&mut reg, 1, 10);
    let mut y = active(&mut reg, 2, 20);
    assert!(matches!(
        x.handle(&mut reg, SessionEvent::Frame(ClientOperation::RoomJoin(room("raid1")))),
        SessionAction::Nothing
    ));
    assert!(matches!(
        y.handle(&mut reg, SessionEvent::Frame(ClientOperation::RoomJoin(room("raid1")))),
        SessionAction::Nothing
    ));
    match x.handle(&mut reg, SessionEvent::Frame(message_op("raid1", "main", "pull"))) {
        SessionAction::Deliver(d) => {
            assert_eq!(d.recipients, vec![ClientId(2)]);
            assert!(d.text.contains("pull"));
        },
        _ => panic!("expected a delivery"),
    }
}

#[test]
fn scenario_departed_member_gets_nothing() {
    let mut reg: Registry<u32> = Registry::new();
    let mut x = active(&mut reg, 1, 10);
    let mut y = active(&mut reg, 2, 20);
    let mut z = active(&mut reg, 3, 30);
    y.handle(&mut reg, SessionEvent::Frame(ClientOperation::RoomJoin(room("raid1"))));
    x.handle(&mut reg, SessionEvent::Frame(ClientOperation::RoomJoin(room("raid1"))));
    assert!(matches!(
        x.handle(&mut reg, SessionEvent::Frame(ClientOperation::Disconnect)),
        SessionAction::Close
    ));
    assert_eq!(x.state(), SessionState::Closed);
    assert_eq!(reg.lookup(ClientId(1)), None);
    z.handle(&mut reg, SessionEvent::Frame(ClientOperation::RoomJoin(room("raid1"))));
    match z.handle(&mut reg, SessionEvent::Frame(message_op("raid1", "main", "go"))) {
        SessionAction::Deliver(d) => assert_eq!(d.recipients, vec![ClientId(2)]),
        _ => panic!("expected a delivery"),
    }
}

#[test]
fn scenario_malformed_frame_closes_only_its_session() {
    let mut reg: Registry<u32> = Registry::new();
    let mut x = active(&mut reg, 1, 10);
    let mut y = active(&mut reg, 2, 20);
    x.handle(&mut reg, SessionEvent::Frame(ClientOperation::RoomJoin(room("raid1"))));
    y.handle(&mut reg, SessionEvent::Frame(ClientOperation::RoomJoin(room("raid1"))));
    assert!(matches!(x.handle(&mut reg, SessionEvent::Malformed), SessionAction::Close));
    assert_eq!(x.state(), SessionState::Closed);
    assert_eq!(reg.lookup(ClientId(1)), None);
    assert_eq!(reg.lookup(ClientId(2)), Some(&20));
    assert_eq!(reg.members_of(&room("raid1")), vec![ClientId(2)]);
    assert_eq!(y.state(), SessionState::Active);
}

#[test]
fn read_end_tears_the_session_down() {
    let mut reg: Registry<u32> = Registry::new();
    let mut x = active(&mut reg, 1, 10);
    x.handle(&mut reg, SessionEvent::Frame(ClientOperation::RoomJoin(room("a"))));
    assert!(matches!(x.handle(&mut reg, SessionEvent::ReadEnded), SessionAction::Close));
    assert_eq!(reg.lookup(ClientId(1)), None);
    assert_eq!(reg.members_of(&room("a")), vec![]);
}

#[test]
fn leave_through_the_session() {
    let mut reg: Registry<u32> = Registry::new();
    let mut x = active(&mut reg, 1, 10);
    x.handle(&mut reg, SessionEvent::Frame(ClientOperation::RoomJoin(room("a"))));
    assert!(matches!(
        x.handle(&mut reg, SessionEvent::Frame(ClientOperation::RoomLeave(room("a")))),
        SessionAction::Nothing
    ));
    assert_eq!(reg.members_of(&room("a")), vec![]);
    assert_eq!(reg.lookup(ClientId(1)), Some(&10));
}
