use udpcast::addr::Ipv4Addr;
use udpcast::protocol::{
    ip4_from_16, ip4_into_16, is_hello, pack_disconnect, pack_go, receiver_port, sender_port,
    ConnectReply, ConnectReq, DataBlock, FecBlock, Hello, OkMsg, Reqack, Retransmit, CMD_DATA,
    CMD_HELLO, CMD_HELLO_NEW, CMD_HELLO_STREAMING, CMD_REQACK, RECEIVER_CAPABILITIES,
    SENDER_CAPABILITIES,
};

#[test]
fn hello_layout_matches_c_struct() {
    let h = Hello {
        capabilities: 9,
        mcast: ip4_into_16(Ipv4Addr::new(224, 0, 0, 1)),
        block_size: 1456,
    };
    let packed = h.pack(CMD_HELLO_NEW);
    assert_eq!(packed.len(), 28);
    assert_eq!(&packed[0..4], &[0, 10, 0, 0]);
    assert_eq!(&packed[4..8], &[0, 0, 0, 9]);
    assert_eq!(&packed[8..12], &[224, 0, 0, 1]);
    assert_eq!(&packed[24..26], &[5, 176]);
    let back = Hello::unpack(&packed);
    assert_eq!(back.capabilities, 9);
    assert_eq!(back.block_size, 1456);
    assert_eq!(ip4_from_16(&back.mcast), Ipv4Addr::new(224, 0, 0, 1));
}

#[test]
fn retransmit_size_is_140() {
    let m = Retransmit {
        slice_no: 3,
        rxmit: 7,
        map: [0xab; 128],
    };
    let packed = m.pack();
    assert_eq!(packed.len(), 140);
    assert_eq!(&packed[0..2], &1u16.to_be_bytes());
    assert_eq!(&packed[4..8], &3i32.to_be_bytes());
    assert_eq!(&packed[8..12], &7i32.to_be_bytes());
    let back = Retransmit::unpack(&packed);
    assert_eq!(back.slice_no, 3);
    assert_eq!(back.rxmit, 7);
    assert_eq!(back.map, [0xab; 128]);
}

#[test]
fn data_block_roundtrip() {
    let d = DataBlock {
        slice_no: 42,
        block_no: 7,
        bytes: 1456,
    };
    let b = d.pack();
    assert_eq!(b.len(), 16);
    assert_eq!(b[1], CMD_DATA as u8);
    let back = DataBlock::unpack(&b);
    assert_eq!(back, d);
}

#[test]
fn connect_req_reply_roundtrip() {
    let q = ConnectReq {
        capabilities: RECEIVER_CAPABILITIES,
        rcvbuf: 131072,
    };
    let qb = q.pack();
    assert_eq!(qb.len(), 12);
    assert_eq!(ConnectReq::unpack(&qb), q);

    let r = ConnectReply {
        cl_nr: 3,
        block_size: 1456,
        capabilities: SENDER_CAPABILITIES,
        mcast: ip4_into_16(Ipv4Addr::new(232, 1, 2, 3)),
    };
    let rb = r.pack();
    assert_eq!(rb.len(), 32);
    assert_eq!(ConnectReply::unpack(&rb), r);
}

#[test]
fn reqack_roundtrip() {
    let r = Reqack {
        slice_no: 11,
        bytes: 5600,
        rxmit: 5,
    };
    let b = r.pack();
    assert_eq!(b.len(), 16);
    assert_eq!(Reqack::unpack(&b), r);
}

#[test]
fn fec_block_roundtrip() {
    let f = FecBlock {
        stripes: 10,
        slice_no: 2,
        block_no: 13,
        bytes: 999,
    };
    let b = f.pack();
    assert_eq!(b.len(), 16);
    assert_eq!(FecBlock::unpack(&b), f);
}

#[test]
fn ok_is_eight_bytes() {
    let b = OkMsg { slice_no: 0x01020304 }.pack();
    assert_eq!(b, [0, 0, 0, 0, 1, 2, 3, 4]);
    assert_eq!(OkMsg::unpack(&b).slice_no, 0x01020304);
}

#[test]
fn negative_numbers_survive_the_wire() {
    let r = Reqack {
        slice_no: -1,
        bytes: i32::MIN,
        rxmit: -2,
    };
    let b = r.pack();
    assert_eq!(&b[0..2], &CMD_REQACK.to_be_bytes());
    assert_eq!(&b[4..8], &[255, 255, 255, 255]);
    assert_eq!(Reqack::unpack(&b), r);
    let c = ConnectReply {
        cl_nr: -1,
        block_size: 512,
        capabilities: 0,
        mcast: [0; 16],
    };
    assert_eq!(ConnectReply::unpack(&c.pack()).cl_nr, -1);
}

#[test]
fn negative_stripes_survive_the_wire() {
    let f = FecBlock {
        stripes: -3,
        slice_no: 0,
        block_no: 65535,
        bytes: 1,
    };
    assert_eq!(FecBlock::unpack(&f.pack()), f);
    assert_eq!(&f.pack()[2..4], &[255, 253]);
}

#[test]
fn hello_keeps_sixteen_bits_of_the_block_size() {
    let h = Hello {
        capabilities: 1,
        mcast: [0; 16],
        block_size: 65536 + 40000,
    };
    let back = Hello::unpack(&h.pack(CMD_HELLO));
    assert_eq!(back.block_size, 40000 - 65536);
}

#[test]
fn go_and_disconnect() {
    assert_eq!(pack_go(), [0, 2, 0, 0]);
    assert_eq!(pack_disconnect(), [0, 4, 0, 0]);
}

#[test]
fn hello_opcodes() {
    assert!(is_hello(CMD_HELLO));
    assert!(is_hello(CMD_HELLO_NEW));
    assert!(is_hello(CMD_HELLO_STREAMING));
    assert!(!is_hello(CMD_DATA));
}

#[test]
fn ports_follow_the_base() {
    assert_eq!(receiver_port(9000), 9000);
    assert_eq!(sender_port(9000), 9001);
}
