use zenoh_peer::pid::{pid_from_text, HexError, PeerId, PidError};
use zenoh_peer::runtime::{
    Channel, CloseAction, Closing, Config, CongestionControl, Data, LinkStatePlan, MessageAction,
    ResKey, Runtime, RuntimeSession, RuntimeTransportEventHandler, StartAction, Starting,
    WhatAmIMatcher, ZError, ZenohBody, ZenohMessage,
};
use zenoh_peer::tables::WhatAmI;

fn open_config() -> Config {
    Config {
        version: None,
        mode: None,
        add_timestamp: None,
        peers_autoconnect: None,
        gossip_autoconnect: None,
        link_state: None,
    }
}

#[test]
fn pid_is_read_with_and_without_dashes() {
    let a = pid_from_text("0123456789abcdefFEDCBA9876543210").unwrap();
    let b = pid_from_text("01234567-89ab-cdef-FEDC-BA9876543210").unwrap();
    assert_eq!(a, b);
    assert_eq!(
        a.to_bytes(),
        vec![1, 35, 69, 103, 137, 171, 205, 239, 254, 220, 186, 152, 118, 84, 50, 16]
    );
    assert_eq!(a.to_text(), "0123456789ABCDEFFEDCBA9876543210");
    assert_eq!(pid_from_text(&a.to_text()).unwrap(), a);
}

#[test]
fn short_pids_are_padded() {
    let pid = pid_from_text("1a2b3c").unwrap();
    let mut id = [0u8; 16];
    id[0] = 26;
    id[1] = 43;
    id[2] = 60;
    assert_eq!(pid, PeerId::new(3, id));
    assert_eq!(pid_from_text("").unwrap(), PeerId::new(0, [0; 16]));
    assert_eq!(pid_from_text("--").unwrap().size, 0);
}

#[test]
fn wrong_pids_are_refused() {
    match pid_from_text("1-2-3") {
        Err(PidError::InvalidId { id, cause }) => {
            assert_eq!(id, "123");
            assert_eq!(cause, HexError::OddLength);
        }
        _ => panic!("an odd number of digits passed"),
    }
    match pid_from_text("00-1g") {
        Err(PidError::InvalidId { id, cause }) => {
            assert_eq!(id, "001g");
            assert_eq!(cause, HexError::InvalidHexCharacter { c: 'g', index: 3 });
        }
        _ => panic!("a letter beyond f passed"),
    }
    match pid_from_text("é") {
        Err(PidError::InvalidId { cause, .. }) => {
            assert_eq!(cause, HexError::InvalidHexCharacter { c: 'Ã', index: 0 });
        }
        _ => panic!("an accent passed"),
    }
    match pid_from_text("000102030405060708090a0b0c0d0e0f10") {
        Err(PidError::InvalidSize { size }) => assert_eq!(size, 17),
        _ => panic!("seventeen bytes passed"),
    }
}

#[test]
fn errors_have_words() {
    let e = Runtime::new(1, open_config(), Some("12z4"), Ok(())).err().unwrap();
    assert_eq!(e.descr(), "Invalid id: 12z4 - Invalid character 'z' at position 2");
    let e = Runtime::new(1, open_config(), Some("123"), Ok(())).err().unwrap();
    assert_eq!(e.descr(), "Invalid id: 123 - Odd number of digits");
    let e = Runtime::new(1, open_config(), Some("0\n"), Ok(())).err().unwrap();
    assert_eq!(e.descr(), "Invalid id: 0\n - Invalid character '\\n' at position 1");
    let e = ZError::Pid(PidError::InvalidId {
        id: "00".to_string(),
        cause: HexError::InvalidStringLength,
    });
    assert_eq!(e.descr(), "Invalid id: 00 - Invalid string length");
    let e = Runtime::new(1, open_config(), Some("000102030405060708090a0b0c0d0e0f10"), Ok(())).err().unwrap();
    assert_eq!(e.descr(), "Invalid id size: 17 (16 bytes max)");
    assert_eq!(ZError::NotReady.descr(), "Runtime not yet ready!");
}

#[test]
fn open_config_gets_the_defaults() {
    let (runtime, plan) = Runtime::new(5, open_config(), Some("0a"), Ok(())).unwrap();
    assert_eq!(runtime.whatami, WhatAmI::Peer);
    assert_eq!(runtime.config.version, Some(5));
    assert_eq!(runtime.get_pid_str(), "0A");
    assert!(runtime.hlc.is_none());
    assert!(runtime.new_timestamp().is_none());
    assert_eq!(plan.version, 5);
    assert_eq!(plan.whatami, WhatAmI::Peer);
    assert_eq!(plan.pid, runtime.pid);
    assert_eq!(
        plan.link_state,
        Some(LinkStatePlan { peers_autoconnect: true, routers_autoconnect_gossip: false })
    );
}

#[test]
fn config_decides_the_plan() {
    let roles = WhatAmIMatcher { router: true, peer: false, client: false };
    let mut config = open_config();
    config.mode = Some(WhatAmI::Router);
    config.gossip_autoconnect = Some(roles);
    config.peers_autoconnect = Some(false);
    let (_, plan) = Runtime::new(0, config, Some("00"), Ok(())).unwrap();
    assert_eq!(
        plan.link_state,
        Some(LinkStatePlan { peers_autoconnect: false, routers_autoconnect_gossip: true })
    );
    config.mode = Some(WhatAmI::Peer);
    let (_, plan) = Runtime::new(0, config, Some("00"), Ok(())).unwrap();
    assert!(!plan.link_state.unwrap().routers_autoconnect_gossip);
    config.mode = Some(WhatAmI::Client);
    config.link_state = Some(true);
    let (_, plan) = Runtime::new(0, config, Some("00"), Ok(())).unwrap();
    assert_eq!(plan.link_state, None);
    config.mode = Some(WhatAmI::Peer);
    config.link_state = Some(false);
    let (_, plan) = Runtime::new(0, config, Some("00"), Ok(())).unwrap();
    assert_eq!(plan.link_state, None);
}

#[test]
fn random_pids_are_random_uuids() {
    let (a, _) = Runtime::new(0, open_config(), None, Ok(())).unwrap();
    let (b, _) = Runtime::new(0, open_config(), None, Ok(())).unwrap();
    assert_eq!(a.pid.size, 16);
    assert_eq!(a.pid.id[6] / 16, 4);
    assert_eq!(a.pid.id[8] / 64, 2);
    assert_ne!(a.pid, b.pid);
    let (c, _) = Runtime::new(0, open_config(), Some(&a.get_pid_str()), Ok(())).unwrap();
    assert_eq!(c.pid, a.pid);
}

#[test]
fn timestamps_grow_and_carry_the_pid() {
    let mut config = open_config();
    config.add_timestamp = Some(true);
    let (runtime, _) = Runtime::new(0, config, Some("1a2b"), Ok(())).unwrap();
    let a = runtime.new_timestamp().unwrap();
    let b = runtime.clone().new_timestamp().unwrap();
    assert!(0 < a.time && a.time < b.time);
    assert_eq!(a.id, vec![26, 43]);
    assert_eq!(b.id, runtime.pid.to_bytes());
    let hlc = runtime.hlc.as_ref().unwrap();
    let c = hlc.new_timestamp();
    assert!(b.time < c.get_time().as_u64());
    assert_eq!(c.get_id().as_slice(), runtime.pid.to_bytes().as_slice());
    config.add_timestamp = Some(false);
    let (runtime, _) = Runtime::new(0, config, Some("1a2b"), Ok(())).unwrap();
    assert!(runtime.new_timestamp().is_none());
}

#[test]
fn sessions_need_a_runtime() {
    let mut handler = RuntimeTransportEventHandler::new();
    assert!(matches!(handler.new_unicast(), Err(ZError::NotReady)));
    let (runtime, _) = Runtime::new(0, open_config(), Some("0b"), Ok(())).unwrap();
    handler.set_runtime(runtime);
    let session = handler.new_unicast().ok().unwrap();
    assert_eq!(session.runtime.get_pid_str(), "0B");
    assert!(session.locator.is_none());
}

fn session() -> RuntimeSession {
    let (runtime, _) = Runtime::new(0, open_config(), Some("0c"), Ok(())).unwrap();
    RuntimeSession { runtime, locator: None }
}

fn data(reply_context: Option<u8>) -> ZenohMessage<u8, &'static str, bool> {
    ZenohMessage {
        body: ZenohBody::Data(Data {
            key: ResKey { rid: 3, suffix: "/a".to_string() },
            data_info: Some("info"),
            payload: vec![1, 2],
            congestion_control: CongestionControl::Drop,
            reply_context,
        }),
        channel: Channel { priority: 4, reliable: true },
        routing_context: Some(9),
    }
}

#[test]
fn data_is_routed_right_away() {
    match session().handle_message(data(None)) {
        MessageAction::RouteData {
            rid,
            suffix,
            channel,
            congestion_control,
            data_info,
            payload,
            routing_context,
        } => {
            assert_eq!(rid, 3);
            assert_eq!(suffix, "/a");
            assert_eq!(channel, Channel { priority: 4, reliable: true });
            assert_eq!(congestion_control, CongestionControl::Drop);
            assert_eq!(data_info, Some("info"));
            assert_eq!(payload, vec![1, 2]);
            assert_eq!(routing_context, Some(9));
        }
        _ => panic!("data was handed on"),
    }
}

#[test]
fn replies_and_the_rest_are_handed_on() {
    match session().handle_message(data(Some(7))) {
        MessageAction::HandOn(msg) => match msg.body {
            ZenohBody::Data(d) => {
                assert_eq!(d.reply_context, Some(7));
                assert_eq!(d.payload, vec![1, 2]);
                assert_eq!(d.key.rid, 3);
                assert_eq!(msg.routing_context, Some(9));
            }
            _ => panic!("the reply became something else"),
        },
        _ => panic!("a reply was routed"),
    }
    let other: ZenohMessage<u8, u8, bool> = ZenohMessage {
        body: ZenohBody::Other(true),
        channel: Channel { priority: 0, reliable: false },
        routing_context: None,
    };
    match session().handle_message(other) {
        MessageAction::HandOn(msg) => assert!(matches!(msg.body, ZenohBody::Other(true))),
        _ => panic!("a declaration was routed"),
    }
}

#[test]
fn only_peers_are_watched() {
    assert!(Runtime::updates_peers("peers"));
    assert!(!Runtime::updates_peers("peer"));
    assert!(!Runtime::updates_peers(""));
}

#[test]
fn closing_stops_at_the_first_failure() {
    let (_, action) = Closing::start::<u8>(0);
    assert!(matches!(action, CloseAction::Done));
    let (mut closing, action) = Closing::start::<u8>(2);
    assert!(matches!(action, CloseAction::Close(0)));
    assert!(matches!(closing.step(Ok::<(), u8>(())), CloseAction::Close(1)));
    assert!(matches!(closing.clone().step(Ok::<(), u8>(())), CloseAction::Done));
    assert!(matches!(closing.step(Err(3u8)), CloseAction::Fail(3)));
    assert_eq!(closing, Closing { closed: 1, total: 2 });
}

#[test]
fn refused_version_comes_before_the_identifier() {
    for id in [None, Some("0a"), Some("no id")] {
        let refusal = Err("Some(7)".to_string());
        match Runtime::new(7, open_config(), id, refusal) {
            Err(e) => {
                assert!(matches!(e, ZError::Version(_)));
                assert_eq!(e.descr(), "Unable to set version: Some(7)");
            }
            Ok(_) => panic!("a refused version passed"),
        }
    }
}

#[test]
fn start_ends_with_the_first_failure() {
    let (mut starting, action) = Starting::start::<u8>();
    assert!(matches!(action, StartAction::Read));
    assert!(matches!(starting.clone().step(Err(1u8)), StartAction::Fail(1)));
    assert!(matches!(starting.step(Ok::<(), u8>(())), StartAction::Build));
    assert!(matches!(starting.clone().step(Err(2u8)), StartAction::Fail(2)));
    assert!(matches!(starting.step(Ok::<(), u8>(())), StartAction::Start));
    assert!(matches!(starting.clone().step(Err(3u8)), StartAction::Fail(3)));
    assert!(matches!(starting.step(Ok::<(), u8>(())), StartAction::Done));
    assert_eq!(starting, Starting::Over);
}

#[test]
fn case_of_digits_does_not_count() {
    assert_eq!(pid_from_text("aB-cD").unwrap(), pid_from_text("AbCd").unwrap());
    match (pid_from_text("aBg0"), pid_from_text("Abg0")) {
        (
            Err(PidError::InvalidId { id: a, cause: c }),
            Err(PidError::InvalidId { id: b, cause: d }),
        ) => {
            assert_eq!((a.as_str(), b.as_str()), ("aBg0", "Abg0"));
            assert_eq!(c, d);
        }
        _ => panic!("a letter beyond f passed"),
    }
}

#[test]
fn all_transports_are_closed_in_order() {
    let (mut closing, mut action) = Closing::start::<u8>(3);
    let mut closed = Vec::new();
    while let CloseAction::Close(i) = action {
        closed.push(i);
        action = closing.step(Ok(()));
    }
    assert!(matches!(action, CloseAction::Done));
    assert_eq!(closed, vec![0, 1, 2]);
}
