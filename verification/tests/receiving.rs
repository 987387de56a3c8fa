use udpcast::addr::{Ipv4Addr, SocketAddrV4};
use udpcast::diskio::{fetch, next_write, release, Stretch};
use udpcast::fec::{fec_encode, fec_init};
use udpcast::fifo::Fifo;
use udpcast::incoming::Place;
use udpcast::protocol::{
    ip4_into_16, pack_go, ConnectReply, ConnectReq, DataBlock, FecBlock, Hello, OkMsg, Reqack,
    CAP_ASYNC, CAP_NEW_GEN, CMD_HELLO_NEW, CMD_HELLO_STREAMING, RECEIVER_CAPABILITIES,
};
use udpcast::receivedata::{
    can_receive, connect_req_packet, farewell, Answer, ClientConfig, NetReceiver, Received,
};
use udpcast::receiver::{
    choose_rendezvous, configure_receiver, disk_flags, listens_for_data, receive_buffer, Connector,
    Found, ReceiverOptions,
};
use udpcast::senddata::{
    NetConfig, FLAG_IGNORE_LOST_DATA, FLAG_NOKBD, FLAG_PASSIVE, FLAG_STREAMING,
};
use udpcast::socklib::{NetIf, SizeError};

const BLOCK: usize = 16;

fn addr(d: u8, port: u16) -> SocketAddrV4 {
    SocketAddrV4 {
        ip: Ipv4Addr::new(10, 0, 0, d),
        port,
    }
}

fn client(late: Vec<(i32, i32, i32)>) -> ClientConfig {
    ClientConfig {
        server_addr: addr(1, 9001),
        control_addr: addr(255, 9001),
        client_number: 0,
        is_started: false,
        sender_is_newgen: true,
        exit_wait_ms: 500,
        completed_slices: Vec::new(),
        end_marker_seen: false,
        receive_timeout_secs: 3,
        late_slices: late,
    }
}

fn data(slice_no: i32, block_no: u16, bytes: i32, payload: &[u8]) -> Vec<u8> {
    let mut p = DataBlock {
        slice_no,
        block_no,
        bytes,
    }
    .pack()
    .to_vec();
    p.extend_from_slice(payload);
    p
}

fn reqack(slice_no: i32, bytes: i32, rxmit: i32) -> Vec<u8> {
    Reqack {
        slice_no,
        bytes,
        rxmit,
    }
    .pack()
    .to_vec()
}

fn take(r: &mut NetReceiver, fifo: &mut Fifo, p: &[u8], now: u64) -> Received {
    assert!(r.accepts(p, fifo));
    match r.receive(p, fifo, now) {
        Some(got) => got,
        None => panic!("no memory"),
    }
}

fn oks(got: &Received) -> Vec<i32> {
    got.answers
        .iter()
        .filter_map(|a| match a {
            Answer::Complete(m) => Some(m.slice_no),
            Answer::Missing(_) => None,
        })
        .collect()
}

fn drain(fifo: &mut Fifo) -> Vec<u8> {
    let mut out = Vec::new();
    while let Stretch::Part { pos, bytes } = next_write(fifo) {
        out.extend(fetch(fifo, pos, bytes));
        assert!(release(fifo, bytes).is_ok());
    }
    out
}

#[test]
fn slices_arrive_out_of_order_and_twice() {
    let mut fifo = Fifo::new(BLOCK);
    let mut r = NetReceiver::new(client(Vec::new()), BLOCK as u32, &mut fifo, 0);
    let mut sent: Vec<u8> = Vec::new();
    for no in 0..40i32 {
        let source: Vec<u8> = (0..BLOCK * 5 - 3).map(|i| (i as i32 * 3 + no) as u8).collect();
        for b in [3u16, 0, 3, 4, 1, 0] {
            let lo = b as usize * BLOCK;
            let hi = (lo + BLOCK).min(source.len());
            let got = take(
                &mut r,
                &mut fifo,
                &data(no, b, source.len() as i32, &source[lo..hi]),
                0,
            );
            assert!(got.answers.is_empty());
            assert!(got.transfer);
        }
        let got = take(
            &mut r,
            &mut fifo,
            &data(no, 2, source.len() as i32, &source[2 * BLOCK..3 * BLOCK]),
            0,
        );
        assert_eq!(oks(&got), vec![no]);
        sent.extend(&source);
    }
    let got = take(&mut r, &mut fifo, &reqack(40, 0, 0), 7);
    assert!(!oks(&got).is_empty());
    assert!(r.end_reached);
    assert_eq!(drain(&mut fifo), sent);
    assert_eq!(next_write(&mut fifo), Stretch::End);
    assert!(!r.is_finished(500_006));
    assert!(r.is_finished(500_007));
}

#[test]
fn missing_blocks_are_asked_for() {
    let mut fifo = Fifo::new(BLOCK);
    let mut r = NetReceiver::new(client(Vec::new()), BLOCK as u32, &mut fifo, 0);
    take(&mut r, &mut fifo, &data(0, 1, 40, &[1; 16]), 0);
    let got = take(&mut r, &mut fifo, &reqack(0, 40, 6), 0);
    match &got.answers[..] {
        [Answer::Missing(m)] => {
            assert_eq!((m.slice_no, m.rxmit, m.map[0]), (0, 6, 2));
        }
        _ => panic!("wrong answer"),
    }
}

#[test]
fn delivered_slices_are_confirmed() {
    let mut fifo = Fifo::new(BLOCK);
    let mut r = NetReceiver::new(client(Vec::new()), BLOCK as u32, &mut fifo, 0);
    for no in 0..20 {
        let got = take(&mut r, &mut fifo, &data(no, 0, 16, &[no as u8; 16]), 0);
        assert_eq!(oks(&got), vec![no]);
    }
    for no in 0..20 {
        let got = take(&mut r, &mut fifo, &reqack(no, 16, 2), 0);
        assert_eq!(oks(&got), vec![no]);
        assert_eq!(got.answers.len(), 1);
    }
    assert_eq!(fifo.data.get_waiting(), 320);
}

#[test]
fn delivered_slices_are_confirmed_whatever_the_size() {
    let mut fifo = Fifo::new(BLOCK);
    let mut r = NetReceiver::new(client(Vec::new()), BLOCK as u32, &mut fifo, 0);
    take(&mut r, &mut fifo, &data(0, 0, 16, &[7; 16]), 0);
    for bytes in [16, 0, -1, i32::MIN, 16 * 1024 + 1, i32::MAX] {
        let got = take(&mut r, &mut fifo, &reqack(0, bytes, 2), 0);
        assert_eq!(oks(&got), vec![0]);
        assert_eq!(got.answers.len(), 1);
    }
    assert_eq!(r.next_no, 1);
    assert_eq!(r.end_no, None);
    assert_eq!(fifo.data.get_waiting(), 16);
}

fn parity(slice_no: i32, block_no: u16, stripes: i32, bytes: i32, payload: &[u8]) -> Vec<u8> {
    let mut p = FecBlock {
        stripes,
        slice_no,
        block_no,
        bytes,
    }
    .pack()
    .to_vec();
    p.extend_from_slice(payload);
    p
}

#[test]
fn questions_are_answered_whatever_parity_was_seen() {
    let mut fifo = Fifo::new(BLOCK);
    let mut r = NetReceiver::new(client(Vec::new()), BLOCK as u32, &mut fifo, 0);
    let bytes = 16 * 200;
    take(&mut r, &mut fifo, &data(0, 9, bytes, &[1; 16]), 0);
    take(&mut r, &mut fifo, &parity(0, 0, 1, bytes, &[2; 16]), 0);
    take(&mut r, &mut fifo, &parity(0, 500, 1, bytes, &[2; 16]), 0);
    let got = take(&mut r, &mut fifo, &reqack(0, bytes, 4), 0);
    match &got.answers[..] {
        [Answer::Missing(m)] => {
            let mut map = [0u8; 128];
            map[1] = 2;
            assert_eq!((m.slice_no, m.rxmit, m.map), (0, 4, map));
        }
        _ => panic!("wrong answer"),
    }
    for b in 0..200u16 {
        let got = take(&mut r, &mut fifo, &data(0, b, bytes, &[1; 16]), 0);
        assert_eq!(oks(&got).len(), (b == 199) as usize);
    }
    assert_eq!(fifo.data.get_waiting(), 3200);
}

#[test]
fn parity_that_is_no_whole_block_is_passed_over() {
    let t = fec_init();
    let mut fifo = Fifo::new(BLOCK);
    let mut r = NetReceiver::new(client(Vec::new()), BLOCK as u32, &mut fifo, 0);
    let source = slice(0, BLOCK * 3);
    let blocks: Vec<Vec<u8>> = source.chunks(BLOCK).map(|c| c.to_vec()).collect();
    let mut rows = vec![vec![0u8; BLOCK]; 2];
    fec_encode(&t, BLOCK, &blocks, &mut rows);
    let bytes = source.len() as i32;
    take(&mut r, &mut fifo, &block_of(&source, 0, 0), 0);
    take(&mut r, &mut fifo, &block_of(&source, 0, 2), 0);
    let got = take(&mut r, &mut fifo, &parity(0, 0, 1, bytes, &rows[0][..5]), 0);
    assert!(got.answers.is_empty());
    let got = take(&mut r, &mut fifo, &parity(0, 200, 1, bytes, &rows[0]), 0);
    assert!(got.answers.is_empty());
    let got = take(&mut r, &mut fifo, &parity(0, 1, 1, bytes, &rows[1]), 0);
    assert_eq!(oks(&got), vec![0]);
    fifo.data.produce_end();
    assert_eq!(drain(&mut fifo), source);
}

#[test]
fn the_first_of_several_ends_counts() {
    let mut fifo = Fifo::new(BLOCK);
    let mut r = NetReceiver::new(client(Vec::new()), BLOCK as u32, &mut fifo, 0);
    assert_eq!(oks(&take(&mut r, &mut fifo, &reqack(2, 0, 0), 0)), vec![2, 2]);
    assert_eq!(oks(&take(&mut r, &mut fifo, &reqack(5, 0, 0), 0)), vec![5, 5]);
    assert_eq!(r.end_no, Some(2));
    assert_eq!(oks(&take(&mut r, &mut fifo, &reqack(1, 0, 0), 0)), vec![1, 1]);
    assert_eq!(r.end_no, Some(1));
    assert_eq!(oks(&take(&mut r, &mut fifo, &reqack(5, 0, 1), 0)), vec![5]);
    assert!(!r.end_reached);
    take(&mut r, &mut fifo, &data(0, 0, 16, &[3; 16]), 0);
    assert!(r.end_reached);
    assert_eq!(drain(&mut fifo), vec![3; 16]);
}

#[test]
fn a_new_slice_has_its_own_memory() {
    let mut fifo = Fifo::new(BLOCK);
    let mut r = NetReceiver::new(client(Vec::new()), BLOCK as u32, &mut fifo, 0);
    let places: Vec<usize> = [1, 0, 3]
        .iter()
        .map(|no| match r.new_slice(*no, &mut fifo) {
            Place::At(i) => i,
            other => panic!("{:?}", other),
        })
        .collect();
    assert_eq!(places, vec![0, 1, 2]);
    let bases: Vec<usize> = places.iter().map(|i| r.slices[*i].base).collect();
    assert_eq!(bases, vec![1024 * BLOCK, 0, 3 * 1024 * BLOCK]);
    assert_eq!(r.find_slice(3, &fifo), Some(2));
    assert_eq!(r.find_slice(2, &fifo), None);
    assert_eq!(r.new_slice(4, &mut fifo), Place::TooFar);
    assert!(!r.is_complete(0));
}

#[test]
fn strange_slices_seen_before_are_passed_over() {
    let mut fifo = Fifo::new(BLOCK);
    let late = vec![(0, 16385, 0), (-1, 1, 0), (1, -1, 0), (2, 40, 0), (3, 0, 0)];
    let r = NetReceiver::new(client(late), BLOCK as u32, &mut fifo, 0);
    let begun: Vec<i32> = r.slices.iter().map(|s| s.slice_no).filter(|no| *no >= 0).collect();
    assert_eq!(begun, vec![2]);
}

#[test]
fn late_slices_are_asked_for_as_a_whole() {
    let mut fifo = Fifo::new(BLOCK);
    let mut r = NetReceiver::new(client(vec![(0, 40, 3)]), BLOCK as u32, &mut fifo, 0);
    let got = take(&mut r, &mut fifo, &reqack(0, 40, 4), 0);
    match &got.answers[..] {
        [Answer::Missing(m)] => {
            assert_eq!((m.slice_no, m.rxmit), (0, 4));
            assert_eq!(m.map, [0u8; 128]);
        }
        _ => panic!("wrong answer"),
    }
}

#[test]
fn an_incomplete_file_has_no_end() {
    let mut fifo = Fifo::new(BLOCK);
    let mut r = NetReceiver::new(client(Vec::new()), BLOCK as u32, &mut fifo, 0);
    take(&mut r, &mut fifo, &data(0, 0, 16, &[1; 16]), 0);
    let got = take(&mut r, &mut fifo, &reqack(2, 0, 0), 0);
    assert_eq!(got.missing, Some(vec![1]));
    assert!(!r.end_reached);
    take(&mut r, &mut fifo, &data(1, 0, 16, &[2; 16]), 0);
    assert!(r.end_reached);
}

#[test]
fn parity_replaces_lost_blocks() {
    let t = fec_init();
    let stripes = 2usize;
    let blocks: Vec<Vec<u8>> = (0..6).map(|b| vec![b as u8 * 17 + 1; BLOCK]).collect();
    let mut fifo = Fifo::new(BLOCK);
    let mut r = NetReceiver::new(client(Vec::new()), BLOCK as u32, &mut fifo, 0);
    let bytes = (6 * BLOCK) as i32;
    for b in [0usize, 3, 4, 5] {
        take(&mut r, &mut fifo, &data(0, b as u16, bytes, &blocks[b]), 0);
    }
    let mut done = Vec::new();
    for stripe in 0..stripes {
        let picked: Vec<Vec<u8>> = (stripe..6).step_by(stripes).map(|p| blocks[p].clone()).collect();
        let mut parity = vec![vec![0u8; BLOCK]];
        fec_encode(&t, BLOCK, &picked, &mut parity);
        let mut p = FecBlock {
            stripes: stripes as i32,
            slice_no: 0,
            block_no: stripe as u16,
            bytes,
        }
        .pack()
        .to_vec();
        p.extend(&parity[0]);
        let got = take(&mut r, &mut fifo, &p, 0);
        done.extend(oks(&got));
    }
    assert_eq!(done, vec![0]);
    fifo.data.produce_end();
    assert_eq!(drain(&mut fifo), blocks.concat());
}

#[test]
fn other_packets_change_nothing() {
    let mut fifo = Fifo::new(BLOCK);
    let mut r = NetReceiver::new(client(Vec::new()), BLOCK as u32, &mut fifo, 0);
    let got = take(&mut r, &mut fifo, &[0, 8, 0], 0);
    assert!(got.answers.is_empty() && got.unexpected.is_none() && !got.transfer);
    let got = take(&mut r, &mut fifo, &pack_go(), 0);
    assert_eq!(got.unexpected, Some(2));
    let hello = Hello {
        capabilities: 0,
        mcast: [0; 16],
        block_size: 16,
    };
    let got = take(&mut r, &mut fifo, &hello.pack(CMD_HELLO_NEW), 0);
    assert!(got.unexpected.is_none());
}

#[test]
fn packets_beyond_the_protocol_are_not_accepted() {
    let mut fifo = Fifo::new(BLOCK);
    let mut r = NetReceiver::new(client(Vec::new()), BLOCK as u32, &mut fifo, 0);
    assert!(r.accepts(&data(0, 0, 16, &[0; 16]), &fifo));
    assert!(!r.accepts(&data(-1, 0, 16, &[0; 16]), &fifo));
    assert!(!r.accepts(&data(0, 0, -16, &[0; 16]), &fifo));
    assert!(!r.accepts(&data(0, 0, 16 * 1024 + 1, &[0; 16]), &fifo));
    assert!(r.accepts(&data(0, 0, 16 * 1024, &[0; 16]), &fifo));
    assert!(!r.accepts(&reqack(0, -16, 0), &fifo));
    assert!(!r.accepts(&reqack(0, 16 * 1024 + 1, 0), &fifo));
    for p in [data(-1, 0, 16, &[0; 16]), reqack(3, -1, 0)] {
        let got = r.receive(&p, &mut fifo, 0).unwrap();
        assert!(got.answers.is_empty() && got.transfer);
    }
    assert!(r.slices.iter().all(|s| s.slice_no == -1));
}

#[test]
fn a_new_slice_waits_for_memory() {
    let mut fifo = Fifo::new(BLOCK);
    let mut r = NetReceiver::new(client(Vec::new()), BLOCK as u32, &mut fifo, 0);
    for no in 0..4 {
        for b in 0..1024u16 {
            let p = data(no, b, 16 * 1024, &[no as u8; 16]);
            assert!(r.receive(&p, &mut fifo, 0).is_some());
        }
    }
    let p = data(4, 0, 16, &[4; 16]);
    assert!(r.receive(&p, &mut fifo, 0).is_none());
    assert_eq!(next_write(&mut fifo), Stretch::Part { pos: 0, bytes: 65536 });
    assert_eq!(release(&mut fifo, 65536), Ok(true));
    assert!(r.receive(&p, &mut fifo, 0).is_some());
}

#[test]
fn silence_of_the_sender() {
    let mut fifo = Fifo::new(BLOCK);
    let mut r = NetReceiver::new(client(Vec::new()), BLOCK as u32, &mut fifo, 0);
    assert!(!r.is_timed_out(10_000_000));
    take(&mut r, &mut fifo, &data(0, 0, 40, &[0; 16]), 0);
    r.heard(1_000_000);
    assert!(!r.is_timed_out(3_999_999));
    assert!(r.is_timed_out(4_000_000));
}

#[test]
fn how_a_receiver_leaves() {
    let c = client(Vec::new());
    let f = farewell(&c, 0);
    assert_eq!(f.packet, [0, 4, 0, 0]);
    assert_eq!(f.addresses, vec![addr(1, 9001), addr(255, 9001)]);
    assert_eq!(f.rounds, 1);
    assert_eq!(farewell(&c, 1).rounds, 5);
    let mut c = client(Vec::new());
    c.server_addr = SocketAddrV4 {
        ip: Ipv4Addr::new(0, 0, 0, 0),
        port: 0,
    };
    assert_eq!(farewell(&c, 1).addresses, vec![addr(255, 9001)]);
    assert_eq!(
        ConnectReq::unpack(&connect_req_packet(77)),
        ConnectReq {
            capabilities: RECEIVER_CAPABILITIES,
            rcvbuf: 77,
        }
    );
}

fn options() -> ReceiverOptions {
    ReceiverOptions {
        port_base: 9000,
        ttl: 1,
        mcast_rdv_address: None,
        passive: false,
        rcvbuf: None,
        nokbd: false,
        start_timeout: 0,
        ignore_lost_data: false,
    }
}

fn eth() -> NetIf {
    NetIf {
        addr: Ipv4Addr::new(10, 0, 0, 7),
        bcast: Ipv4Addr::new(10, 0, 0, 255),
        name: "eth0".to_string(),
        index: 2,
    }
}

fn settings(o: ReceiverOptions) -> NetConfig {
    configure_receiver(o).unwrap_or_else(|_| panic!("refused"))
}

#[test]
fn receiver_options() {
    let mut o = options();
    o.passive = true;
    o.nokbd = true;
    o.ignore_lost_data = true;
    o.rcvbuf = Some("2M".to_string());
    let c = settings(o);
    assert_eq!(c.flags, FLAG_PASSIVE | FLAG_NOKBD | FLAG_IGNORE_LOST_DATA);
    assert_eq!(c.requested_buf_size, 2 << 20);
    assert_eq!(c.block_size, 1456);
    let mut o = options();
    o.rcvbuf = Some("2z".to_string());
    assert!(matches!(configure_receiver(o), Err(SizeError::Unit)));
    assert_eq!(receive_buffer(0), 1 << 20);
    assert_eq!(receive_buffer(5), 5);
    assert_eq!(disk_flags(false, false), 0);
    assert_eq!(disk_flags(true, true), 0x140);
}

#[test]
fn where_a_sender_is_looked_for() {
    let mut c = settings(options());
    assert!(!choose_rendezvous(&mut c, &eth()));
    assert_eq!(c.control_mcast_addr, addr(255, 9001));
    let mut o = options();
    o.mcast_rdv_address = Some("239.0.0.9".to_string());
    let mut c = settings(o);
    assert!(choose_rendezvous(&mut c, &eth()));
    assert_eq!(c.control_mcast_addr.ip, Ipv4Addr::new(239, 0, 0, 9));
    assert!(!listens_for_data(&c, &eth()));
    c.data_mcast_addr.ip = Ipv4Addr::new(239, 0, 0, 9);
    assert!(!listens_for_data(&c, &eth()));
    c.data_mcast_addr.ip = Ipv4Addr::new(239, 0, 0, 8);
    assert!(listens_for_data(&c, &eth()));
    c.data_mcast_addr.ip = eth().addr;
    assert!(!listens_for_data(&c, &eth()));
}

#[test]
fn requests_are_repeated() {
    let mut c = settings(options());
    choose_rendezvous(&mut c, &eth());
    let mut s = Connector::new(&c, None, 0);
    assert_eq!(s.request(0), Some(addr(255, 9001)));
    assert_eq!(s.request(999_999), None);
    assert_eq!(s.request(1_000_000), Some(addr(255, 9001)));
    assert_eq!(s.wait_us(5), 1_000_000);
    assert!(!s.gives_up(u64::MAX));
}

#[test]
fn announcements_are_answered() {
    let mut c = settings(options());
    choose_rendezvous(&mut c, &eth());
    let mut s = Connector::new(&c, None, 0);
    s.request(0);
    let hello = Hello {
        capabilities: CAP_NEW_GEN,
        mcast: ip4_into_16(Ipv4Addr::new(232, 0, 0, 5)),
        block_size: 512,
    };
    let found = s.hear(&hello.pack(CMD_HELLO_STREAMING), addr(1, 9001), 10);
    assert_eq!(found, Found::Group(Ipv4Addr::new(232, 0, 0, 5)));
    s.sniffs(Some(Ipv4Addr::new(232, 0, 0, 5)));
    assert_eq!(s.request(11), Some(addr(1, 9001)));
    assert_eq!(s.request(12), None);
    let found = s.hear(&hello.pack(CMD_HELLO_NEW), addr(1, 9001), 13);
    assert_eq!(found, Found::Nothing);
    s.settle(&mut c);
    assert_eq!(c.flags, FLAG_STREAMING);
    assert_eq!(c.block_size, 512);
    assert_eq!(c.data_mcast_addr.ip, Ipv4Addr::new(232, 0, 0, 5));
}

#[test]
fn silent_receivers_begin_with_the_announcement() {
    let mut c = settings(options());
    choose_rendezvous(&mut c, &eth());
    let mut s = Connector::new(&c, None, 0);
    let hello = Hello {
        capabilities: CAP_NEW_GEN | CAP_ASYNC,
        mcast: [0; 16],
        block_size: 512,
    };
    assert_eq!(
        s.hear(&hello.pack(CMD_HELLO_NEW), addr(1, 9001), 10),
        Found::Sender
    );
    assert_eq!(s.request(20), None);
}

#[test]
fn replies_end_the_search() {
    let mut c = settings(options());
    choose_rendezvous(&mut c, &eth());
    let mut s = Connector::new(&c, None, 0);
    let reply = ConnectReply {
        cl_nr: 6,
        block_size: 1024,
        capabilities: CAP_NEW_GEN,
        mcast: ip4_into_16(Ipv4Addr::new(232, 1, 1, 1)),
    };
    assert_eq!(s.hear(&reply.pack()[..31], addr(1, 9001), 1), Found::Nothing);
    assert_eq!(s.hear(&reply.pack(), addr(1, 9000), 1), Found::Nothing);
    assert_eq!(s.hear(&reply.pack(), addr(1, 9001), 1), Found::Sender);
    s.settle(&mut c);
    assert_eq!(c.block_size, 1024);
    assert_eq!(c.data_mcast_addr.ip, Ipv4Addr::new(232, 1, 1, 1));
    let cl = s.into_client(-5, 7);
    assert_eq!(cl.client_number, 6);
    assert_eq!(cl.server_addr, addr(1, 9001));
    assert!(cl.sender_is_newgen);
    assert_eq!((cl.exit_wait_ms, cl.receive_timeout_secs), (0, 7));
    let mut s = Connector::new(&c, None, 0);
    let full = ConnectReply {
        cl_nr: -1,
        block_size: 1024,
        capabilities: 0,
        mcast: [0; 16],
    };
    assert_eq!(s.hear(&full.pack(), addr(1, 9001), 1), Found::TooManyClients);
}

#[test]
fn slices_under_way_are_noted() {
    let c = settings(options());
    let mut s = Connector::new(&c, None, 0);
    assert_eq!(s.hear(&data(3, 0, 100, &[1]), addr(1, 9001), 1), Found::Nothing);
    assert_eq!(s.hear(&reqack(3, 120, 4), addr(1, 9001), 1), Found::Nothing);
    assert_eq!(s.hear(&reqack(3, 110, 2), addr(1, 9001), 1), Found::Nothing);
    assert_eq!(s.hear(&reqack(-3, 110, 2), addr(1, 9001), 1), Found::Nothing);
    assert_eq!(s.hear(&[0, 6, 0, 0, 0, 0, 0, 9], addr(1, 9001), 1), Found::Nothing);
    let fec = FecBlock {
        stripes: 1,
        slice_no: 5,
        block_no: 0,
        bytes: 64,
    };
    assert_eq!(s.hear(&fec.pack(), addr(1, 9001), 1), Found::Nothing);
    assert_eq!(s.late_slices, vec![(3, 110, 4), (9, 0, 0), (5, 64, 0)]);
    let cl = s.into_client(0, 0);
    assert_eq!(cl.late_slices.len(), 3);
}

#[test]
fn strange_packets_end_the_search() {
    let c = settings(options());
    let mut s = Connector::new(&c, None, 0);
    let ok = OkMsg { slice_no: 0 };
    assert_eq!(s.hear(&ok.pack(), addr(1, 9001), 1), Found::BadReply(0));
    assert_eq!(s.hear(&ok.pack(), addr(1, 7), 2), Found::Nothing);
    assert_eq!(s.last_activity, 1);
}

#[test]
fn a_search_can_fail() {
    let mut o = options();
    o.start_timeout = 2;
    let c = settings(o);
    let mut s = Connector::new(&c, None, 100);
    assert_eq!(s.wait_us(100), 1_000_000);
    assert_eq!(s.wait_us(1_500_100), 500_000);
    assert_eq!(s.wait_us(9_000_000), 0);
    assert!(!s.gives_up(2_000_099));
    assert!(s.gives_up(2_000_100));
    s.hear(&pack_go()[..3], addr(1, 9001), 2_000_000);
    assert!(!s.gives_up(2_000_100));
}

#[test]
fn transfers_within_bounds() {
    let mut fifo = Fifo::new(BLOCK);
    assert!(can_receive(&client(vec![(0, 16384, 0)]), 16, &fifo));
    assert!(can_receive(&client(vec![(0, 16385, 0), (-1, 1, 0), (1, -1, 0)]), 16, &fifo));
    assert!(can_receive(&client(Vec::new()), 64, &fifo));
    assert!(!can_receive(&client(Vec::new()), 65, &fifo));
    assert!(!can_receive(&client(Vec::new()), 0, &fifo));
    let mut c = client(Vec::new());
    c.completed_slices = vec![true, true];
    assert!(can_receive(&c, 16, &fifo));
    c.completed_slices = vec![true, false, true];
    assert!(!can_receive(&c, 16, &fifo));
    fifo.free_mem_queue.consumed(7);
    assert!(!can_receive(&client(Vec::new()), 16, &fifo));
}

fn slice(no: i32, len: usize) -> Vec<u8> {
    (0..len).map(|i| (i * 7 + no as usize * 31 + 1) as u8).collect()
}

fn block_of(source: &[u8], no: i32, b: usize) -> Vec<u8> {
    let hi = ((b + 1) * BLOCK).min(source.len());
    data(no, b as u16, source.len() as i32, &source[b * BLOCK..hi])
}

#[test]
fn slices_in_flight_share_no_memory() {
    let mut fifo = Fifo::new(BLOCK);
    let mut r = NetReceiver::new(client(Vec::new()), BLOCK as u32, &mut fifo, 0);
    let sources: Vec<Vec<u8>> = (0..3).map(|no| slice(no, BLOCK * 6 - 5 * no as usize)).collect();
    for no in [1usize, 0, 2] {
        take(&mut r, &mut fifo, &block_of(&sources[no], no as i32, 0), 0);
    }
    let size = fifo.data_buf_size;
    let bases: Vec<usize> = (0..3)
        .map(|no| r.slices.iter().find(|s| s.slice_no == no).unwrap().base)
        .collect();
    for i in 0..3 {
        for j in 0..i {
            let apart = (bases[i] + size - bases[j]) % size;
            assert!(apart >= 1024 * BLOCK && size - apart >= 1024 * BLOCK);
        }
    }
    for b in 1..6 {
        for no in [2usize, 0, 1] {
            if !(no == 1 && b == 3) {
                take(&mut r, &mut fifo, &block_of(&sources[no], no as i32, b), 0);
            }
        }
    }
    assert_eq!(r.next_no, 1);
    assert_eq!(fifo.data.get_waiting(), sources[0].len());
    let got = take(&mut r, &mut fifo, &reqack(1, sources[1].len() as i32, 1), 0);
    match &got.answers[..] {
        [Answer::Missing(m)] => assert_eq!(m.map[0], 0b110111),
        _ => panic!("wrong answer"),
    }
    take(&mut r, &mut fifo, &block_of(&sources[1], 1, 3), 0);
    assert_eq!(r.next_no, 3);
    take(&mut r, &mut fifo, &reqack(3, 0, 0), 0);
    assert!(r.end_reached);
    assert_eq!(drain(&mut fifo), sources.concat());
}

#[test]
fn slices_are_handed_over_in_order() {
    let mut fifo = Fifo::new(BLOCK);
    let mut r = NetReceiver::new(client(Vec::new()), BLOCK as u32, &mut fifo, 0);
    let got = take(&mut r, &mut fifo, &data(1, 0, 16, &[1; 16]), 0);
    assert_eq!(oks(&got), vec![1]);
    let got = take(&mut r, &mut fifo, &data(2, 0, 9, &[2; 9]), 0);
    assert_eq!(oks(&got), vec![2]);
    assert_eq!(fifo.data.get_waiting(), 0);
    take(&mut r, &mut fifo, &data(0, 0, 5, &[9; 5]), 0);
    assert_eq!(fifo.data.get_waiting(), 30);
    fifo.data.produce_end();
    assert_eq!(drain(&mut fifo), [vec![9; 5], vec![1; 16], vec![2; 9]].concat());
}

#[test]
fn the_end_is_remembered() {
    let mut fifo = Fifo::new(BLOCK);
    let mut r = NetReceiver::new(client(Vec::new()), BLOCK as u32, &mut fifo, 0);
    let got = take(&mut r, &mut fifo, &reqack(20, 0, 0), 0);
    assert_eq!(oks(&got), vec![20, 20]);
    assert_eq!(got.missing, Some((0..20).collect()));
    let mut sent = Vec::new();
    for no in 0..20 {
        assert!(!r.end_reached);
        take(&mut r, &mut fifo, &data(no, 0, 16, &[no as u8; 16]), 0);
        sent.extend([no as u8; 16]);
        assert_eq!(oks(&take(&mut r, &mut fifo, &reqack(20, 0, 1), 0)), vec![20]);
    }
    assert!(r.end_reached);
    assert_eq!(drain(&mut fifo), sent);
    assert_eq!(next_write(&mut fifo), Stretch::End);
}

#[test]
fn slices_too_far_ahead_are_not_begun() {
    let mut fifo = Fifo::new(BLOCK);
    let mut r = NetReceiver::new(client(Vec::new()), BLOCK as u32, &mut fifo, 0);
    let got = take(&mut r, &mut fifo, &data(4, 0, 16, &[4; 16]), 0);
    assert!(got.answers.is_empty());
    let got = take(&mut r, &mut fifo, &reqack(4, 16, 3), 0);
    match &got.answers[..] {
        [Answer::Missing(m)] => assert_eq!((m.slice_no, m.rxmit, m.map), (4, 3, [0u8; 128])),
        _ => panic!("wrong answer"),
    }
    assert!(r.slices.iter().all(|s| s.slice_no == -1));
    take(&mut r, &mut fifo, &data(0, 0, 16, &[0; 16]), 0);
    let got = take(&mut r, &mut fifo, &data(3, 0, 16, &[3; 16]), 0);
    assert_eq!(oks(&got), vec![3]);
}

#[test]
fn parity_replaces_a_block_beside_a_short_one() {
    let t = fec_init();
    let mut fifo = Fifo::new(BLOCK);
    let stale = vec![0xa5u8; fifo.data_buf_size];
    fifo.write_at(0, &stale);
    let mut r = NetReceiver::new(client(Vec::new()), BLOCK as u32, &mut fifo, 0);
    let source = slice(0, BLOCK * 3 - 10);
    let mut blocks: Vec<Vec<u8>> = source.chunks(BLOCK).map(|c| c.to_vec()).collect();
    blocks[2].resize(BLOCK, 0);
    let mut parity = vec![vec![0u8; BLOCK]];
    fec_encode(&t, BLOCK, &blocks, &mut parity);
    take(&mut r, &mut fifo, &block_of(&source, 0, 2), 0);
    take(&mut r, &mut fifo, &block_of(&source, 0, 0), 0);
    let mut p = FecBlock {
        stripes: 1,
        slice_no: 0,
        block_no: 0,
        bytes: source.len() as i32,
    }
    .pack()
    .to_vec();
    p.extend(&parity[0]);
    let got = take(&mut r, &mut fifo, &p, 0);
    assert_eq!(oks(&got), vec![0]);
    fifo.data.produce_end();
    assert_eq!(drain(&mut fifo), source);
}

#[test]
fn slices_go_round_the_ring() {
    let mut fifo = Fifo::new(BLOCK);
    let mut r = NetReceiver::new(client(Vec::new()), BLOCK as u32, &mut fifo, 0);
    let mut sent: Vec<u8> = Vec::new();
    let mut out: Vec<u8> = Vec::new();
    let last = 300;
    for no in (0..last).step_by(3) {
        let sources: Vec<Vec<u8>> =
            (no..no + 3).map(|k| slice(k, 400 + (k as usize * 37) % 300)).collect();
        for b in (0..44).rev() {
            for k in [1usize, 2, 0] {
                if b * BLOCK < sources[k].len() {
                    let p = block_of(&sources[k], no + k as i32, b);
                    take(&mut r, &mut fifo, &p, 0);
                }
            }
        }
        assert_eq!(r.next_no as i32, no + 3);
        sent.extend(sources.concat());
        while let Stretch::Part { pos, bytes } = next_write(&mut fifo) {
            out.extend(fetch(&fifo, pos, bytes));
            assert!(release(&mut fifo, bytes).is_ok());
        }
    }
    assert!(sent.len() > 2 * fifo.data_buf_size);
    take(&mut r, &mut fifo, &reqack(last, 0, 0), 0);
    assert!(r.end_reached);
    out.extend(drain(&mut fifo));
    assert_eq!(out, sent);
}
