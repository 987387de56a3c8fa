use udpcast::statistics::{
    should_print, should_print_uncompressed_pos, Bandwidth, ReceiverLine, ReceiverStats,
    SenderLine, SenderStats, Stats,
};

#[test]
fn lines_are_spaced() {
    let mut s = Stats {
        fd: 3,
        last_printed_us: 1000,
        stat_period: 500,
        print_uncompressed_pos: false,
        no_progress: false,
    };
    assert!(!should_print(&mut s, 1499, false));
    assert!(should_print(&mut s, 1500, false));
    assert_eq!(s.last_printed_us, 1500);
    assert!(!should_print(&mut s, 1600, false));
    assert!(should_print(&mut s, 1600, true));
    assert_eq!(s.last_printed_us, 1500);
    assert!(!should_print(&mut s, 0, false));
}

#[test]
fn positions_are_shown_when_asked_for() {
    assert!(should_print_uncompressed_pos(1, 3, 3));
    assert!(!should_print_uncompressed_pos(0, 3, 4));
    assert!(should_print_uncompressed_pos(-1, 3, 4));
    assert!(!should_print_uncompressed_pos(-1, 3, 3));
}

#[test]
fn receiver_lines() {
    let mut r = ReceiverStats::new(5, 100, true, false, 1_000_000);
    r.start_timer(2_000_000);
    r.start_timer(9_000_000);
    r.add_bytes(1_250_000);
    assert_eq!(
        r.display(true, 3_000_000),
        Some(ReceiverLine {
            bytes: 1_250_000,
            rate: Some(1000),
            position: true,
        })
    );
    assert_eq!(r.display(true, 2_000_000).map(|l| l.rate), Some(None));
    assert_eq!(r.display(false, 1_000_050), None);
    let mut quiet = ReceiverStats::new(5, 100, true, true, 0);
    assert_eq!(quiet.display(true, 10), None);
}

#[test]
fn sender_lines() {
    let mut s = SenderStats::new(4, 0, 100, false, false, 0);
    assert_eq!(s.add_bytes(10_000, 5), None);
    s.add_retransmissions(3);
    s.set_answered(2);
    assert_eq!(
        s.display(1000, 16, true, 50),
        Some(SenderLine {
            bytes: 10_000,
            retransmissions: 3,
            permille: 300,
            slice_size: 16,
            position: false,
            cl_no: 2,
        })
    );
    assert_eq!(s.display(1000, 16, false, 50), None);
}

#[test]
fn bandwidth_by_period() {
    let mut s = SenderStats::new(4, 2, 100, false, true, 0);
    assert_eq!(s.add_bytes(100, 1_999_999), None);
    assert_eq!(
        s.add_bytes(50, 2_000_000),
        Some(Bandwidth {
            bytes: 150,
            elapsed_us: 2_000_000,
        })
    );
    assert_eq!(s.period_bytes, 0);
    assert_eq!(s.period_start_us, 2_000_000);
    assert_eq!(s.total_bytes, 150);
}
