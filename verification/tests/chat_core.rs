//! The room state machine, the hub router, the buffer pool and the
//! connection driver, exercised together on concrete scenarios.
use my_chat::config::Config;
use my_chat::conn::{conn_on_eof, conn_on_text, ConnAction, ConnState};
use my_chat::hub::{ChatHub, HubAction, HubCmd};
use my_chat::memory_pool::MemoryPool;
use my_chat::protocol::ServerEvent;
use my_chat::room::{Room, RoomAction, RoomCmd};

fn test_config(history_limit: usize, room_ttl_secs: u64) -> Config {
    let mut cfg = Config::default();
    cfg.history_limit = history_limit;
    cfg.room_ttl_secs = room_ttl_secs;
    cfg
}

fn frame_text(f: &my_chat::memory_pool::Frame) -> String {
    String::from_utf8(f.to_vec()).unwrap()
}

fn chat(room: &str, name: &str, text: &str, ts: u64) -> ServerEvent {
    ServerEvent::NewMessage {
        room: room.into(),
        name: name.into(),
        text: text.into(),
        ts,
    }
}

#[test]
fn join_subscribes_before_publishing() {
    let cfg = test_config(10, 300);
    let mut pool = MemoryPool::new();
    let mut room = Room::new(&cfg, "rust".into());
    let actions = room.handle(RoomCmd::Join { name: "alice".into() }, 0, &mut pool);
    assert_eq!(actions.len(), 2);
    assert!(matches!(actions[0], RoomAction::Subscribe));
    match &actions[1] {
        RoomAction::Publish(f) => {
            assert_eq!(frame_text(f), r#"{"UserJoined":{"room":"rust","name":"alice"}}"#);
        }
        other => panic!("expected a publish, got {other:?}"),
    }
}

#[test]
fn history_keeps_last_messages_in_order() {
    let cfg = test_config(3, 300);
    let mut pool = MemoryPool::new();
    let mut room = Room::new(&cfg, "rust".into());
    room.handle(RoomCmd::Join { name: "alice".into() }, 0, &mut pool);
    for (i, text) in ["m1", "m2", "m3", "m4"].iter().enumerate() {
        room.handle(RoomCmd::Send(chat("rust", "alice", text, i as u64)), 0, &mut pool);
    }
    let actions = room.handle(RoomCmd::GetHistory, 0, &mut pool);
    match &actions[0] {
        RoomAction::ReplyHistory(h) => {
            let texts: Vec<String> = h.iter().map(frame_text).collect();
            assert_eq!(
                texts,
                vec![
                    r#"{"NewMessage":{"room":"rust","name":"alice","text":"m2","ts":1}}"#,
                    r#"{"NewMessage":{"room":"rust","name":"alice","text":"m3","ts":2}}"#,
                    r#"{"NewMessage":{"room":"rust","name":"alice","text":"m4","ts":3}}"#,
                ]
            );
        }
        other => panic!("expected a history reply, got {other:?}"),
    }
}

#[test]
fn history_never_records_presence_events() {
    let cfg = test_config(10, 300);
    let mut pool = MemoryPool::new();
    let mut room = Room::new(&cfg, "rust".into());
    room.handle(RoomCmd::Join { name: "alice".into() }, 0, &mut pool);
    room.handle(RoomCmd::Send(chat("rust", "alice", "hi", 7)), 0, &mut pool);
    room.handle(RoomCmd::Leave { name: "alice".into() }, 0, &mut pool);
    room.handle(RoomCmd::Join { name: "bob".into() }, 0, &mut pool);
    let actions = room.handle(RoomCmd::GetHistory, 0, &mut pool);
    match &actions[0] {
        RoomAction::ReplyHistory(h) => {
            assert_eq!(h.len(), 1);
            assert_eq!(
                frame_text(&h[0]),
                r#"{"NewMessage":{"room":"rust","name":"alice","text":"hi","ts":7}}"#
            );
        }
        other => panic!("expected a history reply, got {other:?}"),
    }
}

#[test]
fn leave_of_absent_member_is_a_no_op() {
    let cfg = test_config(10, 300);
    let mut pool = MemoryPool::new();
    let mut room = Room::new(&cfg, "rust".into());
    room.handle(RoomCmd::Join { name: "alice".into() }, 0, &mut pool);
    let actions = room.handle(RoomCmd::Leave { name: "ghost".into() }, 5, &mut pool);
    assert!(actions.is_empty());
    let actions = room.handle(RoomCmd::GetMembers, 0, &mut pool);
    match &actions[0] {
        RoomAction::ReplyMembers(m) => assert_eq!(m, &vec![String::from("alice")]),
        other => panic!("expected a member reply, got {other:?}"),
    }
}

#[test]
fn duplicate_join_keeps_one_member_entry() {
    let cfg = test_config(10, 300);
    let mut pool = MemoryPool::new();
    let mut room = Room::new(&cfg, "rust".into());
    room.handle(RoomCmd::Join { name: "alice".into() }, 0, &mut pool);
    room.handle(RoomCmd::Join { name: "alice".into() }, 0, &mut pool);
    let actions = room.handle(RoomCmd::GetMembers, 0, &mut pool);
    match &actions[0] {
        RoomAction::ReplyMembers(m) => assert_eq!(m, &vec![String::from("alice")]),
        other => panic!("expected a member reply, got {other:?}"),
    }
}

#[test]
fn room_expiry_is_ttl_gated() {
    let cfg = test_config(10, 1);
    let mut pool = MemoryPool::new();
    let mut room = Room::new(&cfg, "rust".into());
    room.handle(RoomCmd::Join { name: "alice".into() }, 0, &mut pool);
    assert!(!room.expired(10_000));
    room.handle(RoomCmd::Leave { name: "alice".into() }, 1_000, &mut pool);
    assert!(!room.expired(1_500));
    assert!(!room.expired(2_000)); // exactly the allowance: not yet expired
    assert!(room.expired(2_001));
}

#[test]
fn integrated_happy_path() {
    let cfg = test_config(100, 1);
    let mut pool = MemoryPool::new();
    let mut hub = ChatHub::new(cfg);

    // join "rust" as alice
    let actions = hub.handle_cmd(
        HubCmd::Join { room: "rust".into(), name: "alice".into() },
        0,
        &mut pool,
    );
    assert!(matches!(&actions[0], HubAction::Subscribe { room } if room == "rust"));

    // send a message and observe the published frame
    let chat_evt = chat("rust", "alice", "hello", 42);
    let actions = hub.handle_cmd(
        HubCmd::Send { room: "rust".into(), event: chat_evt },
        0,
        &mut pool,
    );
    match &actions[0] {
        HubAction::Publish { room, frame } => {
            assert_eq!(room, "rust");
            assert_eq!(
                my_chat::codec::decode_event(&frame_text(frame)),
                Some(chat("rust", "alice", "hello", 42))
            );
        }
        other => panic!("expected a publish, got {other:?}"),
    }

    // leave (starts the idle clock)
    hub.handle_cmd(HubCmd::Leave { room: "rust".into(), name: "alice".into() }, 1_000, &mut pool);

    // history still holds exactly the one message
    let actions = hub.handle_cmd(HubCmd::GetHistory { room: "rust".into() }, 1_000, &mut pool);
    match &actions[0] {
        HubAction::History(h) => {
            assert_eq!(h.len(), 1);
            assert_eq!(
                my_chat::codec::decode_event(&frame_text(&h[0])),
                Some(chat("rust", "alice", "hello", 42))
            );
        }
        other => panic!("expected a history reply, got {other:?}"),
    }

    // after the idle allowance the room is gone from the room list
    let actions = hub.handle_cmd(HubCmd::GetRoomList, 7_000, &mut pool);
    match &actions[0] {
        HubAction::Rooms(rooms) => assert!(rooms.is_empty(), "room not cleaned up after TTL"),
        other => panic!("expected a room list, got {other:?}"),
    }
}

#[test]
fn broadcast_publishes_messages_in_send_order() {
    let cfg = test_config(10, 300);
    let mut pool = MemoryPool::new();
    let mut hub = ChatHub::new(cfg);
    for name in ["alice", "bob", "carol"] {
        hub.handle_cmd(HubCmd::Join { room: "rust".into(), name: name.into() }, 0, &mut pool);
    }
    let mut seen = Vec::new();
    for (i, text) in ["x", "y", "z"].iter().enumerate() {
        let actions = hub.handle_cmd(
            HubCmd::Send { room: "rust".into(), event: chat("rust", "alice", text, i as u64) },
            0,
            &mut pool,
        );
        match &actions[0] {
            HubAction::Publish { room, frame } => {
                assert_eq!(room, "rust");
                seen.push(frame_text(frame));
            }
            other => panic!("expected a publish, got {other:?}"),
        }
    }
    assert_eq!(
        seen,
        vec![
            r#"{"NewMessage":{"room":"rust","name":"alice","text":"x","ts":0}}"#,
            r#"{"NewMessage":{"room":"rust","name":"alice","text":"y","ts":1}}"#,
            r#"{"NewMessage":{"room":"rust","name":"alice","text":"z","ts":2}}"#,
        ]
    );
}

#[test]
fn hub_drops_commands_for_unknown_rooms() {
    let cfg = test_config(10, 300);
    let mut pool = MemoryPool::new();
    let mut hub = ChatHub::new(cfg);
    assert!(hub.handle_cmd(
        HubCmd::Send { room: "nowhere".into(), event: chat("nowhere", "x", "y", 0) },
        0,
        &mut pool,
    ).is_empty());
    assert!(hub.handle_cmd(
        HubCmd::Leave { room: "nowhere".into(), name: "x".into() },
        0,
        &mut pool,
    ).is_empty());
    let actions = hub.handle_cmd(HubCmd::GetMembers { room: "nowhere".into() }, 0, &mut pool);
    assert!(matches!(&actions[0], HubAction::Members(m) if m.is_empty()));
    let actions = hub.handle_cmd(HubCmd::GetHistory { room: "nowhere".into() }, 0, &mut pool);
    assert!(matches!(&actions[0], HubAction::History(h) if h.is_empty()));
}

#[test]
fn room_list_and_members_across_rooms() {
    let cfg = test_config(10, 300);
    let mut pool = MemoryPool::new();
    let mut hub = ChatHub::new(cfg);
    hub.handle_cmd(HubCmd::Join { room: "a".into(), name: "alice".into() }, 0, &mut pool);
    hub.handle_cmd(HubCmd::Join { room: "b".into(), name: "bob".into() }, 0, &mut pool);
    hub.handle_cmd(HubCmd::Join { room: "a".into(), name: "bob".into() }, 0, &mut pool);

    let actions = hub.handle_cmd(HubCmd::GetRoomList, 0, &mut pool);
    match &actions[0] {
        HubAction::Rooms(rooms) => {
            let mut rooms = rooms.clone();
            rooms.sort();
            assert_eq!(rooms, vec![String::from("a"), String::from("b")]);
        }
        other => panic!("expected a room list, got {other:?}"),
    }

    let actions = hub.handle_cmd(HubCmd::GetMembers { room: "a".into() }, 0, &mut pool);
    match &actions[0] {
        HubAction::Members(m) => {
            let mut m = m.clone();
            m.sort();
            assert_eq!(m, vec![String::from("alice"), String::from("bob")]);
        }
        other => panic!("expected a member reply, got {other:?}"),
    }
}

#[test]
fn pool_frames_hold_what_was_written() {
    let mut pool = MemoryPool::new();
    let mut buf = pool.allocate(16);
    buf.extend_from_slice(b"abc");
    buf.extend_from_slice(b"def");
    let frame = buf.freeze();
    let copy = frame.clone_frame();
    assert_eq!(frame.to_vec(), b"abcdef");
    assert_eq!(copy.to_vec(), b"abcdef");
    assert_eq!(&frame.into_bytes()[..], b"abcdef");

    let buf = pool.allocate(0);
    let frame = buf.freeze();
    assert_eq!(frame.to_vec(), Vec::<u8>::new());
}

#[test]
fn pool_recycles_buffers() {
    let mut pool = MemoryPool::new();
    let buf = pool.allocate(64);
    pool.recycle(buf);
    // a recycled buffer comes back cleared, whatever was in it
    let mut buf = pool.allocate(32);
    buf.extend_from_slice(b"xyz");
    pool.recycle(buf);
    let buf = pool.allocate(16);
    let frame = buf.freeze();
    assert_eq!(frame.to_vec(), Vec::<u8>::new());
}

#[test]
fn driver_serves_prejoin_and_joined_states() {
    // pre-join: a room list request is served in place
    let (state, actions) = conn_on_text(ConnState::PreJoin, r#""RoomList""#, 0);
    assert!(matches!(state, ConnState::PreJoin));
    assert!(matches!(&actions[0], ConnAction::SendHub(HubCmd::GetRoomList)));

    // pre-join: anything but Join/RoomList is ignored
    let (state, actions) = conn_on_text(
        ConnState::PreJoin,
        r#"{"Message":{"room":"rust","text":"hi"}}"#,
        0,
    );
    assert!(matches!(state, ConnState::PreJoin));
    assert!(actions.is_empty());

    // pre-join: a join enters the room and replays its history
    let (state, actions) = conn_on_text(
        ConnState::PreJoin,
        r#"{"Join":{"room":"rust","name":"alice"}}"#,
        0,
    );
    match &state {
        ConnState::Joined { room, name } => {
            assert_eq!(room, "rust");
            assert_eq!(name, "alice");
        }
        other => panic!("expected a joined state, got {other:?}"),
    }
    assert_eq!(actions.len(), 2);
    assert!(matches!(&actions[0],
        ConnAction::SendHub(HubCmd::Join { room, name }) if room == "rust" && name == "alice"));
    assert!(matches!(&actions[1],
        ConnAction::SendHub(HubCmd::GetHistory { room }) if room == "rust"));

    // joined: a message is stamped with the wall clock and forwarded
    let joined = ConnState::Joined { room: "rust".into(), name: "alice".into() };
    let (state, actions) = conn_on_text(joined, r#"{"Message":{"room":"rust","text":"hi"}}"#, 777);
    assert!(matches!(state, ConnState::Joined { .. }));
    match &actions[0] {
        ConnAction::SendHub(HubCmd::Send { room, event }) => {
            assert_eq!(room, "rust");
            assert_eq!(event, &chat("rust", "alice", "hi", 777));
        }
        other => panic!("expected a forwarded message, got {other:?}"),
    }

    // joined: a second join and a room list request are ignored
    let joined = ConnState::Joined { room: "rust".into(), name: "alice".into() };
    let (state, actions) = conn_on_text(joined, r#"{"Join":{"room":"go","name":"x"}}"#, 0);
    assert!(matches!(state, ConnState::Joined { .. }));
    assert!(actions.is_empty());
    let joined = ConnState::Joined { room: "rust".into(), name: "alice".into() };
    let (state, actions) = conn_on_text(joined, r#""RoomList""#, 0);
    assert!(matches!(state, ConnState::Joined { .. }));
    assert!(actions.is_empty());

    // joined: a leave forwards to the hub and closes
    let joined = ConnState::Joined { room: "rust".into(), name: "alice".into() };
    let (state, actions) = conn_on_text(joined, r#"{"Leave":{"room":"rust"}}"#, 0);
    assert!(matches!(state, ConnState::Closed));
    assert!(matches!(&actions[0],
        ConnAction::SendHub(HubCmd::Leave { room, name }) if room == "rust" && name == "alice"));
    assert!(matches!(&actions[1], ConnAction::Close));
}

#[test]
fn driver_closes_on_garbage_and_eof() {
    let (state, actions) = conn_on_text(ConnState::PreJoin, "not json", 0);
    assert!(matches!(state, ConnState::Closed));
    assert!(matches!(&actions[0], ConnAction::Close));

    let joined = ConnState::Joined { room: "rust".into(), name: "alice".into() };
    let (state, _) = conn_on_text(joined, "{broken", 0);
    assert!(matches!(state, ConnState::Closed));

    let (state, actions) = conn_on_eof(ConnState::PreJoin);
    assert!(matches!(state, ConnState::Closed));
    assert!(matches!(&actions[0], ConnAction::Close));
}
