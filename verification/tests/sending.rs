use udpcast::addr::{Ipv4Addr, SocketAddrV4};
use udpcast::answers::{read_answer, IncomingMsg};
use udpcast::diskio::{fetch, next_read, next_write, release, store, Stretch};
use udpcast::fifo::Fifo;
use udpcast::netsender::{can_send, Action, NetSender, Start};
use udpcast::participants::ParticipantsDb;
use udpcast::protocol::{
    ConnectReply, DataBlock, OkMsg, Reqack, Retransmit, CAP_LATE_JOIN, CMD_DATA, CMD_REQACK,
};
use udpcast::receivedata::{Answer, ClientConfig, NetReceiver};
use udpcast::senddata::{
    init_slice_size, Discovery, NetConfig, Round, FLAG_ASYNC, FLAG_FEC, FLAG_NOTSN, FLAG_SN,
};
use udpcast::statistics::SenderStats;

fn addr(d: u8) -> SocketAddrV4 {
    SocketAddrV4 {
        ip: Ipv4Addr::new(10, 0, 0, d),
        port: 9000,
    }
}

fn config(block_size: u32, slice_size: u32, flags: u32) -> NetConfig {
    NetConfig {
        net_if: None,
        port_base: 9000,
        block_size,
        slice_size,
        control_mcast_addr: addr(255),
        data_mcast_addr: addr(254),
        mcast_rdv: None,
        ttl: 1,
        flags,
        capabilities: 9,
        min_slice_size: 1,
        default_slice_size: slice_size,
        max_slice_size: 1024,
        rcvbuf: 0,
        rexmit_hello_interval: 0,
        autostart: 0,
        requested_buf_size: 0,
        min_receivers: 0,
        max_receivers_wait: 0,
        min_receivers_wait: 0,
        retries_until_drop: 3,
        rehello_offset: 0,
        start_timeout: 0,
        discovery: Discovery::Reducing,
        fec_stripes: 0,
        fec_redundancy: 0,
        fec_stripesize: 0,
        max_bitrate: None,
        autorate: false,
    }
}

fn fill(fifo: &mut Fifo, bytes: &[u8]) {
    match next_read(fifo) {
        Stretch::Part { pos, bytes: room } => {
            assert!(room >= bytes.len());
            assert!(store(fifo, pos, bytes).is_ok());
        }
        other => panic!("{:?}", other),
    }
}

fn table(n: u8) -> ParticipantsDb {
    let mut db = ParticipantsDb::new();
    for d in 1..=n {
        db.add_participant(&addr(d), CAP_LATE_JOIN, 0, false);
    }
    db
}

fn stats() -> SenderStats {
    SenderStats::new(0, 0, 0, false, true, 0)
}

fn go(s: &mut NetSender, fifo: &mut Fifo, st: &mut SenderStats) -> Action {
    match s.step(fifo, st, 0) {
        Ok(a) => a,
        Err(e) => panic!("{:?}", e),
    }
}

fn start(s: &mut NetSender, fifo: &mut Fifo, st: &mut SenderStats) -> (Vec<Vec<u8>>, Reqack) {
    match go(s, fifo, st) {
        Action::Start(Start::Sent {
            data,
            round: Round::Request(p),
            ..
        }) => (data, Reqack::unpack(&p)),
        _ => panic!("no slice"),
    }
}

fn ok(s: &mut NetSender, st: &mut SenderStats, cl_no: i32, slice_no: i32) {
    s.handle_next_message(IncomingMsg::Complete { slice_no, cl_no }, st);
}

fn missing(blocks: &[usize]) -> [u8; 128] {
    let mut map = [0xffu8; 128];
    for b in blocks {
        map[b / 8] &= !(1 << (b % 8));
    }
    map
}

#[test]
fn slices_wait_for_data() {
    let mut fifo = Fifo::new(8);
    let mut st = stats();
    let mut s = NetSender::new(config(8, 4, 0), table(1), fifo.data_buf_size, 0);
    assert!(matches!(
        go(&mut s, &mut fifo, &mut st),
        Action::Start(Start::WaitForData)
    ));
    fill(&mut fifo, &[1; 79]);
    assert!(matches!(
        go(&mut s, &mut fifo, &mut st),
        Action::Start(Start::WaitForData)
    ));
    fill(&mut fifo, &[1; 1]);
    let (data, request) = start(&mut s, &mut fifo, &mut st);
    assert_eq!(data.len(), 4);
    assert_eq!((request.slice_no, request.bytes, request.rxmit), (0, 32, 0));
}

#[test]
fn the_last_slice_is_empty() {
    let mut fifo = Fifo::new(8);
    let mut st = stats();
    let mut s = NetSender::new(config(8, 4, 0), table(1), fifo.data_buf_size, 0);
    fill(&mut fifo, &[1, 2, 3, 4, 5, 6, 7, 8, 9, 10, 11]);
    fifo.data.produce_end();
    let (data, request) = start(&mut s, &mut fifo, &mut st);
    assert_eq!(request.bytes, 8);
    assert_eq!(&data[0][16..], &[1, 2, 3, 4, 5, 6, 7, 8]);
    ok(&mut s, &mut st, 0, 0);
    assert!(matches!(
        go(&mut s, &mut fifo, &mut st),
        Action::Released { bytes: 8, .. }
    ));
    let (data, request) = start(&mut s, &mut fifo, &mut st);
    assert_eq!(request.bytes, 3);
    assert_eq!(&data[0][16..], &[9, 10, 11]);
    ok(&mut s, &mut st, 0, 1);
    assert!(matches!(
        go(&mut s, &mut fifo, &mut st),
        Action::Released { bytes: 3, .. }
    ));
    let (data, request) = start(&mut s, &mut fifo, &mut st);
    assert!(data.is_empty());
    assert_eq!((request.slice_no, request.bytes), (2, 0));
    assert!(matches!(go(&mut s, &mut fifo, &mut st), Action::Wait));
    ok(&mut s, &mut st, 0, 2);
    assert!(matches!(go(&mut s, &mut fifo, &mut st), Action::Released { .. }));
    assert!(matches!(go(&mut s, &mut fifo, &mut st), Action::Finish));
    assert_eq!(st.total_bytes, 11);
}

#[test]
fn missing_blocks_go_out_twice() {
    let mut fifo = Fifo::new(8);
    let mut st = stats();
    let mut s = NetSender::new(config(8, 10, 0), table(2), fifo.data_buf_size, 0);
    fill(&mut fifo, &(0..80).collect::<Vec<u8>>());
    start(&mut s, &mut fifo, &mut st);
    ok(&mut s, &mut st, 0, 0);
    s.handle_next_message(
        IncomingMsg::Retransmit {
            slice_no: 0,
            cl_no: 1,
            map: missing(&[2, 7]),
            rxmit: 0,
        },
        &mut st,
    );
    match go(&mut s, &mut fifo, &mut st) {
        Action::Resend(packets) => {
            let numbers: Vec<u16> = packets.iter().map(|p| DataBlock::unpack(p).block_no).collect();
            assert_eq!(numbers, vec![2, 2, 7, 7]);
            assert_eq!(&packets[0][16..], &[16, 17, 18, 19, 20, 21, 22, 23]);
        }
        _ => panic!("not sent again"),
    }
    assert_eq!(st.retransmissions, 4);
    match go(&mut s, &mut fifo, &mut st) {
        Action::Ask(p) => assert_eq!(Reqack::unpack(&p).rxmit, 1),
        _ => panic!("no question"),
    }
    assert!(matches!(go(&mut s, &mut fifo, &mut st), Action::Wait));
    ok(&mut s, &mut st, 1, 0);
    assert!(matches!(go(&mut s, &mut fifo, &mut st), Action::Released { .. }));
}

#[test]
fn memory_is_given_back_oldest_first() {
    let mut fifo = Fifo::new(8);
    let mut st = stats();
    let mut s = NetSender::new(config(8, 4, FLAG_SN), table(1), fifo.data_buf_size, 0);
    fill(&mut fifo, &(0..200).collect::<Vec<u8>>());
    let free = fifo.free_mem_queue.get_waiting();
    start(&mut s, &mut fifo, &mut st);
    start(&mut s, &mut fifo, &mut st);
    ok(&mut s, &mut st, 0, 1);
    start(&mut s, &mut fifo, &mut st);
    assert!(matches!(go(&mut s, &mut fifo, &mut st), Action::Wait));
    assert_eq!(fifo.free_mem_queue.get_waiting(), free);
    s.handle_next_message(
        IncomingMsg::Retransmit {
            slice_no: 0,
            cl_no: 0,
            map: missing(&[1]),
            rxmit: 0,
        },
        &mut st,
    );
    match go(&mut s, &mut fifo, &mut st) {
        Action::Resend(packets) => {
            assert_eq!(&packets[0][16..], &[8, 9, 10, 11, 12, 13, 14, 15])
        }
        _ => panic!("not sent again"),
    }
    ok(&mut s, &mut st, 0, 0);
    assert!(matches!(go(&mut s, &mut fifo, &mut st), Action::Released { bytes: 32, .. }));
    assert!(matches!(go(&mut s, &mut fifo, &mut st), Action::Released { bytes: 32, .. }));
    assert_eq!(fifo.free_mem_queue.get_waiting(), free + 64);
}

#[test]
fn repeated_answers_count_once() {
    let mut fifo = Fifo::new(8);
    let mut st = stats();
    let mut s = NetSender::new(config(8, 4, 0), table(2), fifo.data_buf_size, 0);
    fill(&mut fifo, &[0; 80]);
    start(&mut s, &mut fifo, &mut st);
    ok(&mut s, &mut st, 0, 0);
    ok(&mut s, &mut st, 0, 0);
    ok(&mut s, &mut st, 0, 0);
    assert!(matches!(go(&mut s, &mut fifo, &mut st), Action::Wait));
    ok(&mut s, &mut st, 1, 0);
    assert!(matches!(go(&mut s, &mut fifo, &mut st), Action::Released { .. }));
}

#[test]
fn stale_requests_still_count() {
    let mut fifo = Fifo::new(8);
    let mut st = stats();
    let mut s = NetSender::new(config(8, 4, 0), table(1), fifo.data_buf_size, 0);
    fill(&mut fifo, &[0; 80]);
    start(&mut s, &mut fifo, &mut st);
    let silence = s.on_timeout(&mut fifo, &mut st, 0);
    assert_eq!(silence.request.map(|p| Reqack::unpack(&p).rxmit), Some(1));
    s.handle_next_message(
        IncomingMsg::Retransmit {
            slice_no: 0,
            cl_no: 0,
            map: missing(&[1]),
            rxmit: 0,
        },
        &mut st,
    );
    match go(&mut s, &mut fifo, &mut st) {
        Action::Resend(packets) => assert_eq!(packets.len(), 2),
        _ => panic!("not sent again"),
    }
}

#[test]
fn requests_of_those_who_were_dropped_still_count() {
    let mut fifo = Fifo::new(8);
    let mut st = stats();
    let mut s = NetSender::new(config(8, 4, 0), table(2), fifo.data_buf_size, 0);
    fill(&mut fifo, &[0; 80]);
    start(&mut s, &mut fifo, &mut st);
    s.handle_next_message(IncomingMsg::Disconnect { cl_no: 1 }, &mut st);
    let request = |cl_no: i32| IncomingMsg::Retransmit {
        slice_no: 0,
        cl_no,
        map: missing(&[2]),
        rxmit: -7,
    };
    let before = s.slices[0].nr_answered;
    s.handle_next_message(request(1024), &mut st);
    s.handle_next_message(request(-1), &mut st);
    assert_eq!(s.slices[0].nr_answered, before);
    assert!(!s.slices[0].need_rxmit);
    s.handle_next_message(request(1), &mut st);
    s.handle_next_message(request(1), &mut st);
    assert_eq!(s.slices[0].nr_answered, before + 1);
    assert_eq!(s.slices[0].nr_ready, 0);
    match go(&mut s, &mut fifo, &mut st) {
        Action::Resend(packets) => {
            let numbers: Vec<u16> = packets.iter().map(|p| DataBlock::unpack(p).block_no).collect();
            assert_eq!(numbers, vec![2, 2]);
        }
        _ => panic!("not sent again"),
    }
    ok(&mut s, &mut st, 1, 0);
    assert!(matches!(go(&mut s, &mut fifo, &mut st), Action::Wait));
    ok(&mut s, &mut st, 0, 0);
    assert!(matches!(go(&mut s, &mut fifo, &mut st), Action::Released { .. }));
}

#[test]
fn silent_participants_are_dropped() {
    let mut fifo = Fifo::new(8);
    let mut st = stats();
    let mut s = NetSender::new(config(8, 4, 0), table(2), fifo.data_buf_size, 0);
    fill(&mut fifo, &[0; 80]);
    start(&mut s, &mut fifo, &mut st);
    ok(&mut s, &mut st, 0, 0);
    let mut dropped = Vec::new();
    let mut rounds = 0;
    while dropped.is_empty() && rounds < 50 {
        assert!(matches!(go(&mut s, &mut fifo, &mut st), Action::Wait));
        dropped = s.on_timeout(&mut fifo, &mut st, 0).dropped;
        rounds += 1;
    }
    assert_eq!(dropped, vec![1]);
    assert_eq!(s.db.nr_participants(), 1);
    assert!(matches!(go(&mut s, &mut fifo, &mut st), Action::Released { .. }));
}

#[test]
fn silence_is_reported_now_and_again() {
    let mut fifo = Fifo::new(8);
    let mut st = stats();
    let mut c = config(8, 4, 0);
    c.retries_until_drop = 1000;
    let mut s = NetSender::new(c, table(2), fifo.data_buf_size, 0);
    fill(&mut fifo, &[0; 80]);
    start(&mut s, &mut fifo, &mut st);
    ok(&mut s, &mut st, 1, 0);
    for i in 0..12 {
        let silence = s.on_timeout(&mut fifo, &mut st, 0);
        match silence.report {
            Some(r) => {
                assert_eq!(i % 6, 5);
                assert_eq!(r.not_ready, vec![0]);
                assert_eq!(r.not_answered, vec![0]);
                assert_eq!((r.nr_ready, r.nr_answered, r.nr_participants), (1, 1, 2));
                assert_eq!(r.wait_ms, 10);
            }
            None => assert_ne!(i % 6, 5),
        }
    }
}

#[test]
fn leavers_do_not_stall() {
    let mut fifo = Fifo::new(8);
    let mut st = stats();
    let mut s = NetSender::new(config(8, 4, 0), table(2), fifo.data_buf_size, 0);
    fill(&mut fifo, &[0; 80]);
    start(&mut s, &mut fifo, &mut st);
    ok(&mut s, &mut st, 0, 0);
    s.handle_next_message(IncomingMsg::Disconnect { cl_no: 1 }, &mut st);
    assert!(matches!(go(&mut s, &mut fifo, &mut st), Action::Released { .. }));
}

#[test]
fn pipeline_is_bounded() {
    for (flags, most) in [(0, 1), (FLAG_SN, 3), (FLAG_SN | FLAG_NOTSN, 1)] {
        let mut fifo = Fifo::new(8);
        let mut st = stats();
        let mut s = NetSender::new(config(8, 1, flags), table(1), fifo.data_buf_size, 0);
        fill(&mut fifo, &[0; 800]);
        for _ in 0..most {
            start(&mut s, &mut fifo, &mut st);
        }
        assert!(matches!(go(&mut s, &mut fifo, &mut st), Action::Wait));
    }
}

#[test]
fn asynchronous_slices_need_no_answers() {
    let mut fifo = Fifo::new(8);
    let mut st = stats();
    let mut s = NetSender::new(config(8, 4, FLAG_ASYNC), table(0), fifo.data_buf_size, 0);
    fill(&mut fifo, &[0; 40]);
    fifo.data.produce_end();
    match go(&mut s, &mut fifo, &mut st) {
        Action::Start(Start::Sent {
            round: Round::Acked(_),
            data,
            ..
        }) => assert_eq!(data.len(), 4),
        _ => panic!("no slice"),
    }
    assert_eq!(st.total_bytes, 32);
}

#[test]
fn late_joiners_get_their_reply_again() {
    let mut fifo = Fifo::new(8);
    let mut st = stats();
    let mut s = NetSender::new(config(8, 4, 0), table(2), fifo.data_buf_size, 0);
    fill(&mut fifo, &[0; 80]);
    start(&mut s, &mut fifo, &mut st);
    ok(&mut s, &mut st, 0, 0);
    assert!(s.late_replies(999_999).is_empty());
    let replies = s.late_replies(1_000_000);
    assert_eq!(replies.len(), 1);
    assert_eq!(replies[0].0, addr(2));
    let reply = ConnectReply::unpack(&replies[0].1);
    assert_eq!((reply.cl_nr, reply.capabilities), (1, 0x0009));
    assert!(s.late_replies(1_000_001).is_empty());
    ok(&mut s, &mut st, 1, 0);
    assert!(matches!(go(&mut s, &mut fifo, &mut st), Action::Released { .. }));
    assert!(s.late_replies(9_000_000).is_empty());
}

#[test]
fn patience_follows_the_answers() {
    let fifo = Fifo::new(8);
    let mut s = NetSender::new(config(8, 4, 0), table(1), fifo.data_buf_size, 0);
    assert_eq!(s.wait_timeout_us(), 11_000);
    s.answered_after(1_000);
    assert_eq!(s.wait_average, 9_100);
    for _ in 0..200 {
        s.answered_after(0);
    }
    assert_eq!(s.wait_timeout_us(), 200);
}

#[test]
fn first_slice_sizes() {
    let mut c = config(8, 0, 0);
    init_slice_size(&mut c);
    assert_eq!(c.slice_size, 130);
    let mut c = config(8, 0, FLAG_SN);
    init_slice_size(&mut c);
    assert_eq!(c.slice_size, 112);
    let mut c = config(8, 0, FLAG_ASYNC);
    init_slice_size(&mut c);
    assert_eq!(c.slice_size, 1024);
    let mut c = config(8, 0, FLAG_FEC);
    c.fec_stripes = 4;
    c.fec_stripesize = 200;
    init_slice_size(&mut c);
    assert_eq!((c.slice_size, c.max_slice_size), (512, 512));
    let mut c = config(8, 50, 0);
    c.max_slice_size = 20;
    init_slice_size(&mut c);
    assert_eq!(c.slice_size, 20);
}

#[test]
fn slices_grow_and_shrink() {
    let mut fifo = Fifo::new(8);
    let mut st = stats();
    let mut c = config(8, 64, 0);
    c.max_slice_size = 90;
    c.discovery = Discovery::Doubling;
    c.default_slice_size = 64;
    let mut s = NetSender::new(c, table(1), fifo.data_buf_size, 0);
    fill(&mut fifo, &[0; 8000]);
    start(&mut s, &mut fifo, &mut st);
    ok(&mut s, &mut st, 0, 0);
    assert!(matches!(go(&mut s, &mut fifo, &mut st), Action::Released { .. }));
    assert_eq!(s.config.slice_size, 80);
    start(&mut s, &mut fifo, &mut st);
    ok(&mut s, &mut st, 0, 1);
    assert!(matches!(go(&mut s, &mut fifo, &mut st), Action::Released { .. }));
    assert_eq!(s.config.slice_size, 90);
    assert_eq!(s.config.discovery, Discovery::Reducing);
    start(&mut s, &mut fifo, &mut st);
    s.handle_next_message(
        IncomingMsg::Retransmit {
            slice_no: 2,
            cl_no: 0,
            map: missing(&[60]),
            rxmit: 0,
        },
        &mut st,
    );
    assert!(matches!(go(&mut s, &mut fifo, &mut st), Action::Resend(_)));
    assert!(matches!(go(&mut s, &mut fifo, &mut st), Action::Ask(_)));
    assert_eq!(s.config.slice_size, 89);
}

/// A receiver behind a network that loses packets.
struct Peer {
    r: NetReceiver,
    fifo: Fifo,
    addr: SocketAddrV4,
    out: Vec<u8>,
}

fn lost(seed: &mut u32, percent: u32) -> bool {
    *seed = seed.wrapping_mul(1103515245).wrapping_add(12345);
    (*seed >> 16) % 100 < percent
}

#[test]
fn file_reaches_all_receivers_in_spite_of_loss() {
    transfer(0);
}

#[test]
fn several_slices_in_flight_arrive_in_order() {
    transfer(FLAG_SN);
}

/// Sends a file to three receivers; packets are lost, and some of those of a slice
/// come after those of the next.
fn transfer(flags: u32) {
    let block = 32usize;
    let file: Vec<u8> = (0..20_000usize).map(|i| (i * i / 7) as u8).collect();
    let mut seed = 4711u32;
    let mut fifo = Fifo::new(block);
    fill(&mut fifo, &file);
    fifo.data.produce_end();
    let mut st = stats();
    let mut c = config(block as u32, 40, flags);
    c.retries_until_drop = 100_000;
    let mut s = NetSender::new(c, table(3), fifo.data_buf_size, 0);
    let mut peers: Vec<Peer> = (1..=3)
        .map(|d| {
            let mut fifo = Fifo::new(block);
            let client = ClientConfig {
                server_addr: addr(99),
                control_addr: addr(255),
                client_number: d as i32 - 1,
                is_started: false,
                sender_is_newgen: true,
                exit_wait_ms: 0,
                completed_slices: Vec::new(),
                end_marker_seen: false,
                receive_timeout_secs: 0,
                late_slices: Vec::new(),
            };
            let r = NetReceiver::new(client, block as u32, &mut fifo, 0);
            Peer {
                r,
                fifo,
                addr: addr(d),
                out: Vec::new(),
            }
        })
        .collect();
    let mut finished = false;
    let mut late: Vec<Vec<u8>> = Vec::new();
    for _ in 0..20_000 {
        let packets: Vec<Vec<u8>> = match go(&mut s, &mut fifo, &mut st) {
            Action::Released { .. } => Vec::new(),
            Action::Resend(packets) => packets,
            Action::Ask(p) => vec![p.to_vec()],
            Action::Start(Start::Sent { mut data, round, .. }) => {
                if let Round::Request(p) = round {
                    data.push(p.to_vec());
                }
                data
            }
            Action::Start(Start::WaitForData) => panic!("no data"),
            Action::Finish => {
                finished = true;
                break;
            }
            Action::Wait => match s.on_timeout(&mut fifo, &mut st, 0).request {
                Some(p) => vec![p.to_vec()],
                None => Vec::new(),
            },
        };
        let (mut now, later): (Vec<_>, Vec<_>) =
            packets.into_iter().partition(|_| !lost(&mut seed, 20));
        now.append(&mut late);
        late = later;
        for p in &now {
            let op = u16::from_be_bytes([p[0], p[1]]);
            assert!(op == CMD_DATA || op == CMD_REQACK);
            for peer in peers.iter_mut() {
                if lost(&mut seed, 30) {
                    continue;
                }
                assert!(peer.r.accepts(p, &peer.fifo));
                let got = match peer.r.receive(p, &mut peer.fifo, 0) {
                    Some(got) => got,
                    None => panic!("no memory"),
                };
                while let Stretch::Part { pos, bytes } = next_write(&mut peer.fifo) {
                    peer.out.extend(fetch(&peer.fifo, pos, bytes));
                    assert!(release(&mut peer.fifo, bytes).is_ok());
                }
                for a in got.answers {
                    if lost(&mut seed, 30) {
                        continue;
                    }
                    let bytes = match a {
                        Answer::Complete(m) => OkMsg::pack(m).to_vec(),
                        Answer::Missing(m) => Retransmit::pack(m).to_vec(),
                    };
                    if let Some(msg) = read_answer(&bytes, &peer.addr, 9000, &s.db) {
                        s.handle_next_message(msg, &mut st);
                    }
                }
            }
        }
    }
    assert!(finished);
    for peer in &peers {
        assert!(peer.r.end_reached);
        assert_eq!(peer.out, file);
    }
}

#[test]
fn settings_within_bounds() {
    assert!(can_send(&config(8, 4, 0), 32768));
    assert!(!can_send(&config(0, 4, 0), 32768));
    assert!(!can_send(&config(64, 4, 0), 32768));
    assert!(!can_send(&config(2_097_152, 4, 0), usize::MAX / 2));
    assert!(can_send(&config(2_097_151, 4, 0), usize::MAX / 2));
    let mut c = config(8, 4, 0);
    c.max_slice_size = 1025;
    assert!(!can_send(&c, 32768));
    let mut c = config(8, 4, FLAG_FEC);
    c.fec_stripes = 8;
    c.fec_redundancy = 129;
    assert!(!can_send(&c, 32768));
    c.fec_redundancy = 128;
    assert!(can_send(&c, 32768));
    c.fec_stripes = 1 << 25;
    assert!(!can_send(&c, 32768));
    c.flags = 0;
    c.fec_stripesize = u32::MAX;
    assert!(can_send(&c, 32768));
    init_slice_size(&mut c);
    assert_eq!(c.slice_size, 4);
}

#[test]
fn counters_have_ends() {
    let fifo = Fifo::new(8);
    let mut st = stats();
    let mut s = NetSender::new(config(8, 4, 0), table(1), fifo.data_buf_size, 0);
    assert!(s.may_step(&st));
    st.total_bytes = u64::MAX - 8191;
    assert!(!s.may_step(&st));
    st.total_bytes = u64::MAX - 8192;
    assert!(s.may_step(&st));
    s.slice_no = i32::MAX;
    assert!(!s.may_step(&st));
}
