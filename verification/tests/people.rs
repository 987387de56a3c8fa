use udpcast::addr::{Ipv4Addr, SocketAddrV4};
use udpcast::answers::{read_answer, IncomingMsg, ReturnChannel};
use udpcast::negotiate::{
    check_client_wait, choose_addresses, clear_participants, handle_receiver_msg,
    hello_interval_ms, is_point_to_point, on_key, on_silence, prepare_transfer, prompt_due,
    send_connection_reply, tick_ms, wait_for_receivers, Dispatch, Greeting, KeyPress,
    LittleEndian, Lobby, TransferError,
};
use udpcast::participants::{bit_is_set, clear_bit, set_bit, ParticipantsDb, MAX_CLIENTS};
use udpcast::protocol::{
    pack_disconnect, pack_go, ConnectReply, ConnectReq, OkMsg, Retransmit, CAP_BIG_ENDIAN,
    CAP_NEW_GEN, SENDER_CAPABILITIES,
};
use udpcast::senddata::{
    Discovery, NetConfig, FLAG_ASYNC, FLAG_NOKBD, FLAG_NOPOINTOPOINT, FLAG_POINTOPOINT,
};
use udpcast::socklib::NetIf;

fn addr(d: u8, port: u16) -> SocketAddrV4 {
    SocketAddrV4 {
        ip: Ipv4Addr::new(10, 0, 0, d),
        port,
    }
}

fn config() -> NetConfig {
    NetConfig {
        net_if: None,
        port_base: 9000,
        block_size: 1456,
        slice_size: 16,
        control_mcast_addr: addr(0, 0),
        data_mcast_addr: SocketAddrV4 {
            ip: Ipv4Addr::new(232, 0, 0, 1),
            port: 9000,
        },
        mcast_rdv: None,
        ttl: 1,
        flags: 0,
        capabilities: SENDER_CAPABILITIES,
        min_slice_size: 16,
        default_slice_size: 0,
        max_slice_size: 1024,
        rcvbuf: 0,
        rexmit_hello_interval: 1000,
        autostart: 0,
        requested_buf_size: 0,
        min_receivers: 0,
        max_receivers_wait: 0,
        min_receivers_wait: 0,
        retries_until_drop: 200,
        rehello_offset: 50,
        start_timeout: 0,
        discovery: Discovery::Doubling,
        fec_stripes: 0,
        fec_redundancy: 0,
        fec_stripesize: 0,
        max_bitrate: None,
        autorate: false,
    }
}

#[test]
fn participants_come_and_go() {
    let mut db = ParticipantsDb::new();
    assert_eq!(db.nr_participants(), 0);
    assert_eq!(db.add_participant(&addr(1, 9000), 3, 100, false), 0);
    assert_eq!(db.add_participant(&addr(2, 9000), 5, 200, false), 1);
    assert_eq!(db.add_participant(&addr(1, 9000), 7, 300, false), 0);
    assert_eq!(db.nr_participants(), 2);
    assert_eq!(db.lookup_participant(&addr(2, 9000)), 1);
    assert_eq!(db.lookup_participant(&addr(2, 9001)), -1);
    assert_eq!(db.get_participant_capabilities(1), 5);
    assert_eq!(db.get_participant_rcvbuf(1), 200);
    assert_eq!(db.get_participant_ip(1), Some(&addr(2, 9000)));
    assert_eq!(db.remove_participant(0), 0);
    assert_eq!(db.remove_participant(0), 0);
    assert!(!db.is_participant_valid(0));
    assert!(db.is_participant_valid(1));
    assert_eq!(db.nr_participants(), 1);
    assert_eq!(db.add_participant(&addr(9, 9000), 0, 0, false), 0);
}

#[test]
fn a_place_given_away_is_as_new() {
    let mut db = ParticipantsDb::new();
    assert_eq!(db.add_participant(&addr(2, 9000), 9, 0, false), 0);
    db.mark_answered(0, Some(1), 3);
    assert!(db.ever_answered(0));
    db.remove_participant(0);
    assert_eq!(db.add_participant(&addr(3, 9000), 9, 0, false), 0);
    assert!(!db.ever_answered(0));
    assert_eq!(db.first_answered_round(0), None);
}

#[test]
fn table_is_full_at_last() {
    let mut db = ParticipantsDb::new();
    for i in 0..MAX_CLIENTS {
        let a = SocketAddrV4 {
            ip: Ipv4Addr::new(10, 0, (i / 256) as u8, (i % 256) as u8),
            port: 9000,
        };
        assert_eq!(db.add_participant(&a, 0, 0, false), i as i32);
    }
    assert_eq!(db.add_participant(&addr(7, 1), 0, 0, false), -1);
    assert_eq!(db.nr_participants(), 1024);
}

#[test]
fn point_to_point_has_one_place() {
    let mut db = ParticipantsDb::new();
    assert_eq!(db.add_participant(&addr(1, 9000), 0, 0, true), 0);
    assert_eq!(db.add_participant(&addr(2, 9000), 0, 0, true), -1);
}

#[test]
fn first_answers_are_remembered() {
    let mut db = ParticipantsDb::new();
    db.add_participant(&addr(1, 9000), 0, 0, false);
    assert!(!db.ever_answered(0));
    db.mark_answered(0, Some(3), 7);
    assert!(db.ever_answered(0));
    assert_eq!(db.first_answered_round(0), Some((3, 7)));
    db.mark_answered(0, Some(3), 9);
    assert_eq!(db.first_answered_round(0), Some((3, 7)));
    db.mark_answered(0, Some(4), 9);
    assert_eq!(db.first_answered_round(0), Some((4, 9)));
    db.mark_answered(0, None, 11);
    assert_eq!(db.first_answered_round(0), Some((4, 9)));
}

#[test]
fn participants_by_their_bits() {
    let mut db = ParticipantsDb::new();
    for d in 1..=4 {
        db.add_participant(&addr(d, 9000), 0, 0, false);
    }
    db.remove_participant(2);
    let mut map = [0u8; 128];
    set_bit(1, &mut map);
    set_bit(2, &mut map);
    assert!(bit_is_set(1, &map));
    assert_eq!(map[0], 6);
    assert_eq!(db.select_by_bit(&map, true), vec![1]);
    assert_eq!(db.select_by_bit(&map, false), vec![0, 3]);
    clear_bit(1, &mut map);
    assert_eq!(map[0], 4);
}

#[test]
fn answers_come_from_participants_only() {
    let mut db = ParticipantsDb::new();
    db.add_participant(&addr(1, 9000), 0, 0, false);
    db.add_participant(&addr(2, 9000), 0, 0, false);
    let ok = OkMsg { slice_no: 5 }.pack();
    match read_answer(&ok, &addr(2, 9000), 9000, &db) {
        Some(IncomingMsg::Complete { slice_no, cl_no }) => assert_eq!((slice_no, cl_no), (5, 1)),
        other => panic!("{:?}", other),
    }
    assert!(read_answer(&ok, &addr(3, 9000), 9000, &db).is_none());
    assert!(read_answer(&ok, &addr(2, 9001), 9000, &db).is_none());
    assert!(read_answer(&ok[..7], &addr(2, 9000), 9000, &db).is_none());
    let mut map = [0u8; 128];
    map[9] = 3;
    let m = Retransmit {
        slice_no: 6,
        rxmit: 2,
        map,
    };
    match read_answer(&m.pack(), &addr(1, 9000), 9000, &db) {
        Some(IncomingMsg::Retransmit {
            slice_no,
            cl_no,
            map: seen,
            rxmit,
        }) => {
            assert_eq!((slice_no, cl_no, rxmit), (6, 0, 2));
            assert_eq!(seen, map);
        }
        other => panic!("{:?}", other),
    }
    match read_answer(&pack_disconnect(), &addr(1, 9000), 9000, &db) {
        Some(IncomingMsg::Disconnect { cl_no }) => assert_eq!(cl_no, 0),
        other => panic!("{:?}", other),
    }
    assert!(read_answer(&pack_go(), &addr(1, 9000), 9000, &db).is_none());
}

#[test]
fn answers_wait_in_order() {
    let mut q = ReturnChannel::new();
    assert!(q.pop().is_none());
    assert_eq!(q.consume_with_timeout(false), None);
    for i in 0..256 {
        let msg = IncomingMsg::Complete {
            slice_no: i,
            cl_no: 0,
        };
        assert_eq!(q.push(msg), Some(i == 0));
        if i == 0 {
            assert_eq!(q.consume_with_timeout(false), Some(true));
        }
    }
    assert_eq!(q.get_waiting(), 256);
    assert!(q.push(IncomingMsg::Disconnect { cl_no: 1 }).is_none());
    for i in 0..256 {
        match q.pop() {
            Some((IncomingMsg::Complete { slice_no, .. }, _)) => assert_eq!(slice_no, i),
            _ => panic!("wrong answer"),
        }
    }
    assert_eq!(q.consume_with_timeout(true), Some(false));
}

#[test]
fn connection_requests_are_answered() {
    let c = config();
    let mut db = ParticipantsDb::new();
    let req = ConnectReq {
        capabilities: CAP_NEW_GEN,
        rcvbuf: 0,
    };
    match handle_receiver_msg(&req.pack(), &addr(4, 9000), &mut db, &c) {
        Greeting::Reply(p) => {
            let r = ConnectReply::unpack(&p);
            assert_eq!(r.cl_nr, 0);
            assert_eq!(r.block_size, 1456);
            assert_eq!(r.capabilities, SENDER_CAPABILITIES);
            assert_eq!(&r.mcast[0..4], &[232, 0, 0, 1]);
        }
        _ => panic!("no reply"),
    }
    assert_eq!(db.get_participant_rcvbuf(0), 65536);
    assert_eq!(db.get_participant_capabilities(0), CAP_NEW_GEN | CAP_BIG_ENDIAN);
    assert!(matches!(
        handle_receiver_msg(&pack_go(), &addr(4, 9000), &mut db, &c),
        Greeting::Start
    ));
    assert!(matches!(
        handle_receiver_msg(&req.pack()[..11], &addr(5, 9000), &mut db, &c),
        Greeting::Nothing
    ));
    assert!(matches!(
        handle_receiver_msg(&pack_disconnect(), &addr(4, 9000), &mut db, &c),
        Greeting::Nothing
    ));
    assert_eq!(db.nr_participants(), 0);
}

#[test]
fn little_endian_peers_are_refused() {
    let c = config();
    let mut db = ParticipantsDb::new();
    let r = send_connection_reply(&mut db, &c, &addr(1, 9000), CAP_NEW_GEN, 5);
    assert_eq!(r, Err(LittleEndian));
    assert_eq!(db.nr_participants(), 0);
    assert!(send_connection_reply(&mut db, &c, &addr(1, 9000), CAP_BIG_ENDIAN, 5).is_ok());
}

#[test]
fn waiting_for_receivers() {
    let mut c = config();
    let mut db = ParticipantsDb::new();
    assert!(!wait_for_receivers(&c));
    assert!(!check_client_wait(&db, &c, Some(0)));
    db.add_participant(&addr(1, 9000), 0, 0, false);
    assert!(!check_client_wait(&db, &c, None));
    assert!(check_client_wait(&db, &c, Some(0)));
    c.min_receivers = 2;
    c.max_receivers_wait = 10;
    assert!(wait_for_receivers(&c));
    assert!(!check_client_wait(&db, &c, Some(9_999_999)));
    assert!(check_client_wait(&db, &c, Some(10_000_000)));
    c.max_receivers_wait = 0;
    c.min_receivers = 1;
    c.min_receivers_wait = 3;
    assert!(!check_client_wait(&db, &c, Some(2_999_999)));
    assert!(check_client_wait(&db, &c, Some(3_000_000)));
}

#[test]
fn announcements_and_ticks() {
    let mut c = config();
    assert_eq!(hello_interval_ms(&c), Some(1000));
    c.rexmit_hello_interval = 0;
    assert_eq!(hello_interval_ms(&c), Some(1000));
    c.rexmit_hello_interval = -1;
    assert_eq!(hello_interval_ms(&c), None);
    assert_eq!(tick_ms(&c, Some(7)), Some(7));
    assert_eq!(tick_ms(&c, None), None);
    c.start_timeout = 1;
    assert_eq!(tick_ms(&c, None), Some(2000));
}

#[test]
fn silence_ends_in_a_start_or_not() {
    let mut c = config();
    let db = ParticipantsDb::new();
    let mut tries = 0;
    assert_eq!(on_silence(&c, &db, true, &mut tries, None, 0), Dispatch::Wait);
    assert_eq!(tries, 1);
    c.autostart = 1;
    assert_eq!(on_silence(&c, &db, true, &mut tries, None, 0), Dispatch::Start);
    assert_eq!(tries, 2);
    c.autostart = 0;
    c.start_timeout = 5;
    assert_eq!(on_silence(&c, &db, false, &mut tries, None, 4_999_999), Dispatch::Wait);
    assert_eq!(on_silence(&c, &db, false, &mut tries, None, 5_000_000), Dispatch::GiveUp);
    assert_eq!(tries, 2);
}

#[test]
fn lobby_counts_from_the_first_receiver() {
    let mut c = config();
    c.rexmit_hello_interval = -1;
    c.min_receivers = 2;
    c.max_receivers_wait = 10;
    c.start_timeout = 60;
    let mut lobby = Lobby::new(1_000_000);
    assert_eq!(lobby.begun, 1_000_000);
    lobby.begin_round(2_000_000);
    assert_eq!(lobby.first_connected, None);
    assert_eq!(lobby.silence(&c, 60_999_999), Dispatch::Wait);
    assert_eq!(lobby.silence(&c, 61_000_000), Dispatch::GiveUp);
    assert_eq!(lobby.hello_tries, 0);

    lobby.db.add_participant(&addr(1, 9000), 0, 0, false);
    assert_eq!(lobby.end_round(&c, 5_000_000), Dispatch::Wait);
    lobby.begin_round(5_000_000);
    assert_eq!(lobby.first_connected, Some(5_000_000));
    lobby.begin_round(9_000_000);
    assert_eq!(lobby.first_connected, Some(5_000_000));
    assert_eq!(lobby.end_round(&c, 14_999_999), Dispatch::Wait);
    assert_eq!(lobby.end_round(&c, 15_000_000), Dispatch::Start);
    assert_eq!(lobby.silence(&c, 15_000_000), Dispatch::Start);
}

#[test]
fn lobby_starts_after_its_announcements() {
    let mut c = config();
    c.autostart = 2;
    let mut lobby = Lobby::new(0);
    assert_eq!(lobby.silence(&c, 1_000), Dispatch::Wait);
    assert_eq!(lobby.silence(&c, 2_000), Dispatch::Wait);
    assert_eq!(lobby.silence(&c, 3_000), Dispatch::Start);
    assert_eq!(lobby.hello_tries, 3);
}

#[test]
fn keys() {
    assert_eq!(on_key(None), KeyPress::Nothing);
    assert_eq!(on_key(Some(b'q')), KeyPress::Cancel);
    assert_eq!(on_key(Some(b'x')), KeyPress::Start);
    let mut c = config();
    let mut db = ParticipantsDb::new();
    assert!(!prompt_due(false, &c, &db));
    db.add_participant(&addr(1, 9000), 0, 0, false);
    assert!(prompt_due(false, &c, &db));
    assert!(!prompt_due(true, &c, &db));
    c.flags = FLAG_NOKBD;
    assert!(!prompt_due(false, &c, &db));
}

#[test]
fn straight_to_a_single_receiver() {
    let mut db = ParticipantsDb::new();
    db.add_participant(&addr(1, 9000), CAP_BIG_ENDIAN, 700, false);
    assert!(is_point_to_point(&db, 0));
    assert!(!is_point_to_point(&db, FLAG_NOPOINTOPOINT));
    assert!(!is_point_to_point(&db, FLAG_ASYNC));
    let mut c = config();
    assert_eq!(prepare_transfer(&mut c, &db), Ok(()));
    assert_eq!(c.data_mcast_addr, addr(1, 9000));
    assert_eq!(c.rcvbuf, 700);
    assert_eq!(c.capabilities, CAP_BIG_ENDIAN);
}

#[test]
fn group_for_several_receivers() {
    let mut db = ParticipantsDb::new();
    db.add_participant(&addr(1, 9000), CAP_BIG_ENDIAN | CAP_NEW_GEN, 700, false);
    db.add_participant(&addr(2, 9000), CAP_BIG_ENDIAN, 600, false);
    let mut c = config();
    let before = c.data_mcast_addr;
    assert_eq!(prepare_transfer(&mut c, &db), Ok(()));
    assert_eq!(c.data_mcast_addr, before);
    assert_eq!(c.rcvbuf, 600);
    assert_eq!(c.capabilities, CAP_BIG_ENDIAN);
    let mut c = config();
    c.flags = FLAG_POINTOPOINT;
    assert_eq!(prepare_transfer(&mut c, &db), Err(TransferError::NotAlone(2)));
    db.add_participant(&addr(3, 9000), CAP_NEW_GEN, 0, false);
    let mut c = config();
    assert_eq!(prepare_transfer(&mut c, &db), Err(TransferError::LittleEndian));
    clear_participants(&mut db);
    assert_eq!(db.nr_participants(), 0);
}

#[test]
fn sender_chooses_its_addresses() {
    let eth = NetIf {
        addr: Ipv4Addr::new(192, 168, 1, 5),
        bcast: Ipv4Addr::new(192, 168, 1, 255),
        name: "eth0".to_string(),
        index: 2,
    };
    let mut c = config();
    c.data_mcast_addr = SocketAddrV4 {
        ip: Ipv4Addr::new(0, 0, 0, 0),
        port: 0,
    };
    let a = choose_addresses(&mut c, &eth);
    assert!(!a.control_is_group);
    assert!(a.default_data);
    assert_eq!(c.control_mcast_addr.ip, eth.bcast);
    assert_eq!(c.control_mcast_addr.port, 9000);
    assert_eq!(c.data_mcast_addr.ip, Ipv4Addr::new(232, 168, 1, 5));
    assert_eq!(c.data_mcast_addr.port, 9000);
    let mut c = config();
    c.ttl = 4;
    let a = choose_addresses(&mut c, &eth);
    assert!(a.control_is_group);
    assert!(!a.default_data);
    assert_eq!(c.control_mcast_addr.ip, Ipv4Addr::new(224, 0, 0, 1));
}
