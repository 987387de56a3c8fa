use udpcast::addr::Ipv4Addr;
use udpcast::protocol::{CAP_ASYNC, CAP_BIG_ENDIAN, CAP_FEC, CAP_NEW_GEN, SENDER_CAPABILITIES};
use udpcast::senddata::{
    sender_capabilities, FLAG_ASYNC, FLAG_BCAST, FLAG_FEC, FLAG_NOKBD, FLAG_NOPOINTOPOINT,
    FLAG_NOTSN, FLAG_POINTOPOINT, FLAG_SN, FLAG_STREAMING,
};
use udpcast::sender::{
    configure_sender, parse_fec_spec, stat_period_us, BadFecSpec, OptionError, SenderOptions,
};
use udpcast::socklib::SizeError;

fn options() -> SenderOptions {
    SenderOptions {
        port_base: 9000,
        block_size: 1456,
        mcast_data_address: None,
        mcast_rdv_address: None,
        max_bitrate: None,
        pointopoint: false,
        nopointopoint: false,
        async_mode: false,
        half_duplex: false,
        full_duplex: false,
        ttl: 1,
        min_slice_size: 16,
        default_slice_size: None,
        max_slice_size: 1024,
        rexmit_hello_interval: 0,
        autostart: 0,
        broadcast: false,
        sendbuf: None,
        min_receivers: 0,
        max_wait: 0,
        min_wait: 0,
        nokbd: false,
        start_timeout: 0,
        retries_until_drop: 200,
        streaming: false,
        rehello_offset: 50,
        fec: None,
        autorate: false,
    }
}

#[test]
fn parse_fec_spec_forms() {
    assert_eq!(parse_fec_spec("8x2/128"), Ok((8, 2, 128)));
    assert_eq!(parse_fec_spec("8x2"), Ok((8, 2, 128)));
    assert_eq!(parse_fec_spec("2"), Ok((8, 2, 128)));
    assert_eq!(parse_fec_spec("8"), Ok((8, 8, 128)));
    assert_eq!(parse_fec_spec("4x3/64"), Ok((4, 3, 64)));
    assert_eq!(parse_fec_spec("16x4/256"), Ok((16, 4, 256)));
    assert_eq!(parse_fec_spec("8x8/16"), Ok((8, 8, 16)));
}

#[test]
fn bad_fec_specs() {
    for spec in ["", "x", "8x", "x2", "8x2/", "a", "8x2x3", "4294967296", "-1", "8x2/1/2"] {
        assert_eq!(parse_fec_spec(spec), Err(BadFecSpec), "{}", spec);
    }
    assert_eq!(parse_fec_spec("+8x+2"), Ok((8, 2, 128)));
    assert_eq!(parse_fec_spec("4294967295"), Ok((8, 4294967295, 128)));
}

#[test]
fn sender_capabilities_matches_c() {
    assert_eq!(SENDER_CAPABILITIES, CAP_NEW_GEN | CAP_BIG_ENDIAN);
    assert_eq!(sender_capabilities(0), SENDER_CAPABILITIES);
    assert_eq!(
        sender_capabilities(FLAG_ASYNC),
        CAP_NEW_GEN | CAP_BIG_ENDIAN | CAP_ASYNC
    );
    assert_eq!(
        sender_capabilities(FLAG_FEC),
        CAP_NEW_GEN | CAP_BIG_ENDIAN | CAP_FEC
    );
    assert_eq!(
        sender_capabilities(FLAG_FEC | FLAG_ASYNC),
        CAP_NEW_GEN | CAP_BIG_ENDIAN | CAP_FEC | CAP_ASYNC
    );
    assert_eq!(
        sender_capabilities(FLAG_SN | FLAG_POINTOPOINT | FLAG_BCAST),
        SENDER_CAPABILITIES
    );
}

#[test]
fn default_settings() {
    let c = configure_sender(options()).unwrap_or_else(|_| panic!("refused"));
    assert_eq!(c.block_size, 1456);
    assert_eq!(c.slice_size, 16);
    assert_eq!(c.default_slice_size, 0);
    assert_eq!(c.flags, 0);
    assert_eq!(c.rexmit_hello_interval, 1000);
    assert_eq!(c.capabilities, SENDER_CAPABILITIES);
    assert_eq!(c.requested_buf_size, 0);
    assert_eq!(c.data_mcast_addr.ip, Ipv4Addr::new(0, 0, 0, 0));
}

#[test]
fn duplex_options_undo_each_other() {
    let mut o = options();
    o.async_mode = true;
    let c = configure_sender(o).unwrap_or_else(|_| panic!("refused"));
    assert_eq!(c.flags, FLAG_ASYNC | FLAG_SN);
    let mut o = options();
    o.async_mode = true;
    o.half_duplex = true;
    let c = configure_sender(o).unwrap_or_else(|_| panic!("refused"));
    assert_eq!(c.flags, FLAG_ASYNC | FLAG_NOTSN);
    let mut o = options();
    o.half_duplex = true;
    o.full_duplex = true;
    let c = configure_sender(o).unwrap_or_else(|_| panic!("refused"));
    assert_eq!(c.flags, FLAG_NOTSN | FLAG_SN);
}

#[test]
fn flags_and_parity() {
    let mut o = options();
    o.nopointopoint = true;
    o.broadcast = true;
    o.nokbd = true;
    o.streaming = true;
    o.fec = Some("4x3/64".to_string());
    o.mcast_data_address = Some("232.1.2.3".to_string());
    o.sendbuf = Some("64k".to_string());
    o.rexmit_hello_interval = -1;
    let c = configure_sender(o).unwrap_or_else(|_| panic!("refused"));
    assert_eq!(
        c.flags,
        FLAG_NOPOINTOPOINT | FLAG_BCAST | FLAG_NOKBD | FLAG_STREAMING | FLAG_FEC
    );
    assert_eq!((c.fec_stripes, c.fec_redundancy, c.fec_stripesize), (4, 3, 64));
    assert_eq!(c.data_mcast_addr.ip, Ipv4Addr::new(232, 1, 2, 3));
    assert_eq!(c.requested_buf_size, 65536);
    assert_eq!(c.rcvbuf, 65536);
    assert_eq!(c.rexmit_hello_interval, -1);
    assert_eq!(c.capabilities, SENDER_CAPABILITIES | CAP_FEC);
}

#[test]
fn slice_sizes_are_put_in_order() {
    let mut o = options();
    o.min_slice_size = 0;
    o.max_slice_size = 0;
    o.default_slice_size = Some(7);
    let c = configure_sender(o).unwrap_or_else(|_| panic!("refused"));
    assert_eq!(
        (c.min_slice_size, c.default_slice_size, c.max_slice_size, c.slice_size),
        (1, 1, 1, 1)
    );
    let mut o = options();
    o.default_slice_size = Some(8);
    let c = configure_sender(o).unwrap_or_else(|_| panic!("refused"));
    assert_eq!(c.slice_size, 16);
    let mut o = options();
    o.default_slice_size = Some(5000);
    let c = configure_sender(o).unwrap_or_else(|_| panic!("refused"));
    assert_eq!(c.slice_size, 1024);
}

fn refusal(o: SenderOptions) -> Option<OptionError> {
    match configure_sender(o) {
        Ok(_) => None,
        Err(e) => Some(e),
    }
}

#[test]
fn refused_options() {
    let mut o = options();
    o.fec = Some("?".to_string());
    assert_eq!(refusal(o), Some(OptionError::BadFecSpec));
    let mut o = options();
    o.block_size = 3;
    assert_eq!(refusal(o), Some(OptionError::BlockSize));
    let mut o = options();
    o.sendbuf = Some("1x".to_string());
    assert_eq!(refusal(o), Some(OptionError::BufferSize(SizeError::Unit)));
    let mut o = options();
    o.sendbuf = Some("18446744073709551615k".to_string());
    assert_eq!(refusal(o), Some(OptionError::BufferSize(SizeError::TooLarge)));
    let mut o = options();
    o.pointopoint = true;
    o.nopointopoint = true;
    assert_eq!(refusal(o), Some(OptionError::PointToPoint));
    let mut o = options();
    o.block_size = 1459;
    assert_eq!(configure_sender(o).unwrap_or_else(|_| panic!("refused")).block_size, 1456);
}

#[test]
fn large_buffers_keep_their_low_word() {
    let mut o = options();
    o.sendbuf = Some("4097M".to_string());
    let c = configure_sender(o).unwrap_or_else(|_| panic!("refused"));
    assert_eq!(c.requested_buf_size, 1 << 20);
}

#[test]
fn stat_periods() {
    assert_eq!(stat_period_us(0), 500_000);
    assert_eq!(stat_period_us(-4), 500_000);
    assert_eq!(stat_period_us(20), 20_000);
}
