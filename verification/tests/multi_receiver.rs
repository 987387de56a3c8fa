use std::collections::HashMap;

use udpcast::addr::{Ipv4Addr, SocketAddrV4};
use udpcast::answers::{read_answer, ReturnChannel};
use udpcast::diskio::{next_read, store, Stretch};
use udpcast::fec::{fec_encode, fec_init};
use udpcast::fifo::Fifo;
use udpcast::negotiate::{can_transfer, check_client_wait, handle_receiver_msg, prepare_transfer, Greeting};
use udpcast::netsender::{Action, NetSender, Start};
use udpcast::participants::ParticipantsDb;
use udpcast::protocol;
use udpcast::protocol::{OkMsg, Reqack, Retransmit};
use udpcast::senddata::{
    hello_packet, sender_capabilities, Discovery, NetConfig, Round, FLAG_FEC, FLAG_NOKBD, FLAG_SN,
};
use udpcast::statistics::SenderStats;

const BLOCK: usize = 512;
const SLICE_BLOCKS: u32 = 32;
const SLICE_BYTES: i32 = (SLICE_BLOCKS as usize * BLOCK) as i32;
const NR_DATA_SLICES: i32 = 5;
const PORT_BASE: u16 = 9199;

fn source_byte(i: usize) -> u8 {
    ((i * 7 + 13) % 251) as u8
}

fn addr(d: u8, port: u16) -> SocketAddrV4 {
    SocketAddrV4 {
        ip: Ipv4Addr::new(127, 0, 0, d),
        port,
    }
}

/// Everything the sender sent.
struct Log {
    /// (slice, block) -> (count, first payload)
    data: HashMap<(i32, u16), (usize, Vec<u8>)>,
    /// slice -> (number, stripes, payload)
    fec: HashMap<i32, Vec<(u16, i32, Vec<u8>)>>,
    /// slice -> bytes
    reqacks: HashMap<i32, i32>,
    /// (slice, bytes, rxmit)
    log: Vec<(i32, i32, i32)>,
}

impl Log {
    fn new() -> Self {
        Log {
            data: HashMap::new(),
            fec: HashMap::new(),
            reqacks: HashMap::new(),
            log: Vec::new(),
        }
    }

    fn packet(&mut self, p: &[u8]) -> Option<Reqack> {
        let op = u16::from_be_bytes([p[0], p[1]]);
        if op == protocol::CMD_DATA && p.len() >= 16 {
            let d = protocol::DataBlock::unpack(p);
            let e = self
                .data
                .entry((d.slice_no, d.block_no))
                .or_insert((0, p[16..].to_vec()));
            e.0 += 1;
        } else if op == protocol::CMD_FEC && p.len() >= protocol::FEC_BLOCK_SIZE {
            let f = protocol::FecBlock::unpack(p);
            self.fec
                .entry(f.slice_no)
                .or_default()
                .push((f.block_no, f.stripes, p[16..].to_vec()));
        } else if op == protocol::CMD_REQACK && p.len() >= protocol::REQACK_SIZE {
            let r = Reqack::unpack(p);
            self.reqacks.insert(r.slice_no, r.bytes);
            self.log.push((r.slice_no, r.bytes, r.rxmit));
            return Some(r);
        }
        None
    }
}

/// Lets the sender go on until it waits or is done; the requests it makes, and
/// whether it is done.
fn run(
    s: &mut NetSender,
    fifo: &mut Fifo,
    stats: &mut SenderStats,
    now: u64,
    log: &mut Log,
) -> (Vec<Reqack>, bool) {
    let mut requests = Vec::new();
    loop {
        let action = match s.step(fifo, stats, now) {
            Ok(a) => a,
            Err(e) => panic!("{:?}", e),
        };
        match action {
            Action::Released { .. } => {}
            Action::Resend(packets) => {
                for p in &packets {
                    log.packet(p);
                }
            }
            Action::Ask(p) => requests.extend(log.packet(&p)),
            Action::Start(Start::Sent {
                data,
                parity,
                round,
            }) => {
                for p in data.iter().chain(parity.iter()) {
                    log.packet(p);
                }
                if let Round::Request(p) = round {
                    requests.extend(log.packet(&p));
                }
            }
            Action::Start(Start::WaitForData) => panic!("no data"),
            Action::Finish => return (requests, true),
            Action::Wait => return (requests, false),
        }
    }
}

/// Hands an answer to the sender the way it comes in from the network.
fn answer(s: &mut NetSender, stats: &mut SenderStats, packet: &[u8], from: &SocketAddrV4) {
    let mut channel = ReturnChannel::new();
    let port_base = s.config.port_base;
    if let Some(msg) = read_answer(packet, from, port_base, &s.db) {
        assert!(channel.push(msg).is_some());
        let (msg, _) = channel.pop().unwrap();
        s.handle_next_message(msg, stats);
    }
}

#[test]
fn two_receivers_gate_acks_and_retransmits() {
    let total = NR_DATA_SLICES as usize * SLICE_BYTES as usize;

    let mut fifo = Fifo::new(BLOCK);
    fifo.with_buffer_mut(|buf| {
        for i in 0..total {
            buf[i] = source_byte(i);
        }
    });
    assert_eq!(fifo.free_mem_queue.consume(total), Some(BLOCK * 4096));
    fifo.free_mem_queue.consumed(total);
    assert_eq!(fifo.data.produce(total), Ok(false));
    fifo.data.produce_end();

    let dest = addr(1, PORT_BASE);
    let addr_a = addr(2, PORT_BASE);
    let addr_b = addr(3, PORT_BASE);

    let caps = protocol::CAP_BIG_ENDIAN | protocol::CAP_NEW_GEN;
    let mut db = ParticipantsDb::new();
    db.add_participant(&addr_a, caps, 0, false);
    db.add_participant(&addr_b, caps, 0, false);
    assert_eq!(db.nr_participants(), 2);

    let cfg = NetConfig {
        net_if: None,
        port_base: PORT_BASE,
        block_size: BLOCK as u32,
        slice_size: SLICE_BLOCKS,
        control_mcast_addr: dest,
        data_mcast_addr: dest,
        mcast_rdv: None,
        ttl: 0,
        flags: FLAG_SN,
        capabilities: caps,
        min_slice_size: 32,
        default_slice_size: SLICE_BLOCKS,
        max_slice_size: protocol::MAX_SLICE_SIZE as u32,
        rcvbuf: 0,
        rexmit_hello_interval: 0,
        autostart: 0,
        requested_buf_size: 0,
        min_receivers: 2,
        max_receivers_wait: 0,
        min_receivers_wait: 0,
        retries_until_drop: 1_000_000,
        rehello_offset: 0,
        start_timeout: 0,
        discovery: Discovery::Doubling,
        fec_stripes: 0,
        fec_redundancy: 0,
        fec_stripesize: 0,
        max_bitrate: None,
        autorate: false,
    };
    let mut stats = SenderStats::new(0, 100, 100, false, true, 0);
    let mut now: u64 = 0;
    let mut s = NetSender::new(cfg, db, fifo.data_buf_size, now);
    let mut log = Log::new();

    let ok = |slice_no: i32| OkMsg { slice_no }.pack();
    let mut missing2_map = [0xffu8; 128];
    missing2_map[0] &= !(1 << 2);
    let rexmit = |rxmit: i32| {
        Retransmit {
            slice_no: 1,
            rxmit,
            map: missing2_map,
        }
        .pack()
    };

    // The first three slices go out, and no more.
    let (requests, done) = run(&mut s, &mut fifo, &mut stats, now, &mut log);
    assert!(!done);
    let initial: Vec<i32> = requests.iter().map(|r| r.slice_no).collect();
    assert_eq!(initial, vec![0, 1, 2]);
    assert!(requests.iter().all(|r| r.rxmit == 0));

    // Receiver A acks everything; receiver B only asks for a block of slice 1.
    answer(&mut s, &mut stats, &ok(0), &addr_a);
    answer(&mut s, &mut stats, &ok(1), &addr_a);
    answer(&mut s, &mut stats, &ok(2), &addr_a);
    answer(&mut s, &mut stats, &rexmit(0), &addr_b);

    // For a while, repeated requests are answered the same way.
    for _ in 0..60 {
        let (mut requests, done) = run(&mut s, &mut fifo, &mut stats, now, &mut log);
        assert!(!done);
        now += s.wait_timeout_us();
        let silence = s.on_timeout(&mut fifo, &mut stats, now);
        assert!(silence.dropped.is_empty());
        if let Some(p) = silence.request {
            requests.extend(log.packet(&p));
        }
        for r in requests {
            assert!(r.slice_no < 3, "pipeline advanced without acks from receiver B");
            answer(&mut s, &mut stats, &ok(r.slice_no), &addr_a);
            if r.slice_no == 1 {
                answer(&mut s, &mut stats, &rexmit(r.rxmit), &addr_b);
            }
        }
    }
    let rexmit_count = log.data.get(&(1, 2)).map(|e| e.0).unwrap_or(0);
    assert!(
        rexmit_count >= 2,
        "block 2 of slice 1 was not retransmitted (seen {} times)",
        rexmit_count
    );
    for (&no, _) in &log.reqacks {
        assert!(no < 3, "saw REQACK for slice {} before receiver B acked", no);
    }

    // Receiver B acks everything; the transfer must now complete.
    answer(&mut s, &mut stats, &ok(0), &addr_b);
    answer(&mut s, &mut stats, &ok(1), &addr_b);
    answer(&mut s, &mut stats, &ok(2), &addr_b);

    let mut rounds = 0;
    loop {
        assert!(rounds < 100, "sender did not finish after all acks");
        rounds += 1;
        let (requests, done) = run(&mut s, &mut fifo, &mut stats, now, &mut log);
        if done {
            break;
        }
        for r in requests {
            answer(&mut s, &mut stats, &ok(r.slice_no), &addr_a);
            answer(&mut s, &mut stats, &ok(r.slice_no), &addr_b);
        }
    }

    // Requests for all data slices plus the final empty slice.
    for no in 0..=NR_DATA_SLICES {
        let bytes = log
            .reqacks
            .get(&no)
            .unwrap_or_else(|| panic!("no REQACK for slice {}", no));
        let expect = if no == NR_DATA_SLICES { 0 } else { SLICE_BYTES };
        assert_eq!(*bytes, expect, "REQACK bytes mismatch for slice {} (log {:?})", no, log.log);
    }

    // Every data block arrived with intact payload; block 2 of slice 1 twice.
    for no in 0..NR_DATA_SLICES {
        for b in 0..SLICE_BLOCKS as u16 {
            let (count, payload) = log
                .data
                .get(&(no, b))
                .unwrap_or_else(|| panic!("missing DATA slice {} block {}", no, b));
            let offset = (no as usize) * SLICE_BYTES as usize + (b as usize) * BLOCK;
            let expected: Vec<u8> = (offset..offset + BLOCK).map(source_byte).collect();
            assert_eq!(*payload, expected, "payload mismatch slice {} block {}", no, b);
            if (no, b) == (1, 2) {
                assert!(*count >= 2, "retransmitted block sent only {} time(s)", count);
            } else {
                assert_eq!(*count, 1, "slice {} block {} sent {} times", no, b, count);
            }
        }
    }
    // All memory is free again.
    assert_eq!(fifo.free_mem_queue.get_waiting(), fifo.data_buf_size);
    assert_eq!(fifo.data.get_waiting(), 0);
}

#[test]
fn fec_sender_advertises_cap_fec_on_the_wire() {
    let port_base: u16 = 9299;
    let block_size: u32 = 512;
    let slice_blocks = 8usize;
    let nr_slices = 3;
    let total = nr_slices * slice_blocks * block_size as usize;
    let stripes = 2usize;
    let redundancy = 2usize;
    let expected_caps = protocol::SENDER_CAPABILITIES | protocol::CAP_FEC;

    let mut payload = Vec::with_capacity(total);
    for i in 0..total {
        payload.push((i * 7 + 13) as u8);
    }

    let self_addr = addr(1, port_base);
    let part = addr(2, port_base);

    let flags = FLAG_SN | FLAG_FEC | FLAG_NOKBD;
    let mut cfg = NetConfig {
        net_if: None,
        port_base,
        block_size,
        slice_size: 8,
        control_mcast_addr: self_addr,
        data_mcast_addr: self_addr,
        mcast_rdv: None,
        ttl: 0,
        flags,
        capabilities: 0,
        min_slice_size: 1,
        default_slice_size: 8,
        max_slice_size: 128 * stripes as u32,
        rcvbuf: 0,
        rexmit_hello_interval: 0,
        autostart: 0,
        requested_buf_size: 0,
        min_receivers: 1,
        max_receivers_wait: 0,
        min_receivers_wait: 0,
        retries_until_drop: 1_000_000,
        rehello_offset: 0,
        start_timeout: 0,
        discovery: Discovery::Doubling,
        fec_stripes: stripes as u32,
        fec_redundancy: redundancy as u32,
        fec_stripesize: 128,
        max_bitrate: None,
        autorate: false,
    };
    cfg.capabilities = sender_capabilities(cfg.flags);

    let hello = hello_packet(&cfg, false);
    assert_eq!(&hello[0..2], &protocol::CMD_HELLO_NEW.to_be_bytes());
    assert_eq!(
        protocol::Hello::unpack(&hello).capabilities,
        expected_caps,
        "HELLO capabilities must be {:08x}",
        expected_caps
    );

    // The receiver connects.
    let mut db = ParticipantsDb::new();
    let req = protocol::ConnectReq {
        capabilities: protocol::RECEIVER_CAPABILITIES,
        rcvbuf: 4096,
    };
    assert!(!can_transfer(&cfg, &db));
    let reply_caps = match handle_receiver_msg(&req.pack(), &part, &mut db, &cfg) {
        Greeting::Reply(reply) => protocol::ConnectReply::unpack(&reply).capabilities,
        _ => panic!("no reply"),
    };
    assert_eq!(
        reply_caps, expected_caps,
        "CONNECT_REPLY must carry SENDER_CAPABILITIES | CAP_FEC (got {:08x})",
        reply_caps
    );
    assert!(check_client_wait(&db, &cfg, Some(0)));
    assert!(can_transfer(&cfg, &db));
    assert!(prepare_transfer(&mut cfg, &db).is_ok());
    assert_eq!(cfg.data_mcast_addr, part);
    assert_eq!(cfg.rcvbuf, 4096);

    // The input is read into the ring.
    let mut fifo = Fifo::new(block_size as usize);
    let mut at = 0;
    while at < total {
        let (pos, bytes) = match next_read(&mut fifo) {
            Stretch::Part { pos, bytes } => (pos, bytes),
            other => panic!("{:?}", other),
        };
        let n = bytes.min(total - at);
        assert!(store(&mut fifo, pos, &payload[at..at + n]).is_ok());
        at += n;
    }
    fifo.data.produce_end();

    let mut stats = SenderStats::new(0, 0, 0, false, true, 0);
    let mut s = NetSender::new(cfg, db, fifo.data_buf_size, 0);
    let mut log = Log::new();
    let mut rounds = 0;
    loop {
        assert!(rounds < 100, "sender did not finish");
        rounds += 1;
        let (requests, done) = run(&mut s, &mut fifo, &mut stats, 0, &mut log);
        if done {
            break;
        }
        for r in requests {
            let ok = OkMsg { slice_no: r.slice_no }.pack();
            answer(&mut s, &mut stats, &ok, &part);
        }
    }

    let tables = fec_init();
    for no in 0..nr_slices {
        let d: Vec<Vec<u8>> = (0..slice_blocks)
            .map(|b| {
                let (count, blk) = log
                    .data
                    .get(&(no as i32, b as u16))
                    .unwrap_or_else(|| panic!("no DATA for slice {}", no));
                assert_eq!(*count, 1, "slice {} data blocks", no);
                blk.clone()
            })
            .collect();
        assert!(!log.data.contains_key(&(no as i32, slice_blocks as u16)));
        for (i, blk) in d.iter().enumerate() {
            assert_eq!(blk.len(), block_size as usize, "slice {} block {} size", no, i);
            let off = no * slice_blocks * block_size as usize + i * block_size as usize;
            assert_eq!(
                &blk[..],
                &payload[off..off + block_size as usize],
                "payload mismatch slice {} block {}",
                no,
                i
            );
        }
        let f = log
            .fec
            .get(&(no as i32))
            .unwrap_or_else(|| panic!("no FEC for slice {}", no));
        assert_eq!(f.len(), stripes * redundancy, "slice {} fec count", no);
        for (_bno, stripes_f, _) in f {
            assert_eq!(*stripes_f, stripes as i32, "slice {} fec stripes field", no);
        }
        for stripe in 0..stripes {
            let per_stripe = slice_blocks / stripes;
            let picked: Vec<Vec<u8>> = (0..per_stripe)
                .map(|j| d[stripe + j * stripes].clone())
                .collect();
            let mut par: Vec<Vec<u8>> = vec![vec![0u8; block_size as usize]; redundancy];
            fec_encode(&tables, block_size as usize, &picked, &mut par);
            for (r, expect) in par.iter().enumerate() {
                let bno = stripe + r * stripes;
                let got = f
                    .iter()
                    .find(|(b, _, _)| *b as usize == bno)
                    .unwrap_or_else(|| panic!("no FEC block {} of slice {}", bno, no))
                    .2
                    .clone();
                assert_eq!(&got[..], &expect[..], "parity mismatch slice {} bno {}", no, bno);
            }
        }
    }
}
