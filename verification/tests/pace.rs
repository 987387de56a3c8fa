use udpcast::rate::{
    parse_speed, AutoRateData, MaxBitrateData, Pause, RateGovernorData, RateGovernorSet,
    SpeedTooLarge,
};

#[test]
fn speeds() {
    assert_eq!(parse_speed(""), Ok(0));
    assert_eq!(parse_speed("  100  "), Ok(100));
    assert_eq!(parse_speed("100k"), Ok(100_000));
    assert_eq!(parse_speed("100 K"), Ok(100_000));
    assert_eq!(parse_speed("2m"), Ok(2_000_000));
    assert_eq!(parse_speed("3G"), Ok(3_000_000_000));
    assert_eq!(parse_speed("5x"), Ok(5));
    assert_eq!(parse_speed("1kb"), Ok(0));
    assert_eq!(parse_speed("7k8"), Ok(7));
    assert_eq!(parse_speed("fast"), Ok(0));
    assert_eq!(parse_speed("20000000000G"), Err(SpeedTooLarge));
}

#[test]
fn unlimited_pace() {
    let mut m = MaxBitrateData {
        date_us: 5,
        bitrate: 0,
        queue_size: 7,
    };
    let before = m;
    assert_eq!(m.wait(100, 1000), Some(0));
    assert_eq!(m, before);
}

#[test]
fn idle_line_takes_a_packet_at_once() {
    let mut m = MaxBitrateData {
        date_us: 0,
        bitrate: 8_000_000,
        queue_size: 0,
    };
    assert_eq!(m.wait(1000, 972), Some(0));
    assert_eq!(m.queue_size, 1000);
    assert_eq!(m.date_us, 1000);
    // A byte takes one microsecond: 500 of them are gone after 500.
    assert_eq!(m.wait(1500, 972), Some(0));
    assert_eq!(m.queue_size, 1500);
    assert_eq!(m.date_us, 1500);
}

#[test]
fn busy_line_makes_the_sender_sleep() {
    let mut m = MaxBitrateData {
        date_us: 0,
        bitrate: 8_000_000,
        queue_size: 75_000,
    };
    // 75 milliseconds of work, less ten, in steps of ten.
    assert_eq!(m.wait(0, 0), Some(60_000));
    assert_eq!(m.queue_size, 75_028);
    let mut m = MaxBitrateData {
        date_us: 0,
        bitrate: 8_000_000_000,
        queue_size: 100_000,
    };
    assert_eq!(m.wait(0, 0), Some(0));
    let mut m = MaxBitrateData {
        date_us: 0,
        bitrate: 8_000_000,
        queue_size: 40_000,
    };
    assert_eq!(m.wait(0, 0), Some(0));
}

#[test]
fn pace_out_of_bounds() {
    let mut m = MaxBitrateData {
        date_us: 0,
        bitrate: u64::MAX,
        queue_size: 1,
    };
    let before = m;
    assert_eq!(m.wait(2, 10), None);
    assert_eq!(m, before);
    let mut m = MaxBitrateData {
        date_us: 0,
        bitrate: 1,
        queue_size: 0,
    };
    assert_eq!(m.wait(0, i64::MAX), None);
}

#[test]
fn properties_of_a_limit() {
    let mut m = MaxBitrateData {
        date_us: 0,
        bitrate: 0,
        queue_size: 0,
    };
    assert_eq!(m.set_prop("other", "5"), Ok(()));
    assert_eq!(m.bitrate, 0);
    assert_eq!(m.set_prop("maxBitrate", "5k"), Ok(()));
    assert_eq!(m.bitrate, 5000);
    assert_eq!(m.set_prop("maxBitrate", "20000000000G"), Err(SpeedTooLarge));
    assert_eq!(m.bitrate, 5000);
}

#[test]
fn buffer_that_reports_what_is_used() {
    let mut a = AutoRateData::new();
    a.initialize(0, Some(10_000));
    assert_eq!((a.dir, a.sendbuf), (0, 10_000));
    assert!(a.is_ready(3999, 1000));
    assert!(!a.is_ready(4000, 1000));
    assert!(a.is_ready(-1, 1_000_000));
}

#[test]
fn buffer_that_reports_what_is_free() {
    let mut a = AutoRateData::new();
    a.initialize(10_000, None);
    assert_eq!((a.dir, a.sendbuf), (1, 10_000));
    assert!(a.is_ready(6001, 1000));
    assert!(!a.is_ready(6000, 1000));
}

#[test]
fn governors_in_turn() {
    let mut set = RateGovernorSet::new();
    assert_eq!(set.add_max_bitrate("8M", 0), Ok(()));
    set.add_autorate();
    assert_eq!(set.add_max_bitrate("20000000000G", 0), Err(SpeedTooLarge));
    assert_eq!(set.governors.len(), 2);
    assert_eq!(set.governors[0].name, "maxBitrate");
    assert_eq!(set.governors[1].name, "autorate");
    assert_eq!(set.governors[0].wait(0, 0, None, 972), Pause::Sleep(0));
    assert_eq!(
        set.governors[0].data,
        RateGovernorData::MaxBitrate(MaxBitrateData {
            date_us: 0,
            bitrate: 8_000_000,
            queue_size: 1000,
        })
    );
    assert_eq!(set.governors[1].wait(0, 0, Some(4000), 500), Pause::Retry(0));
    assert_eq!(set.governors[1].wait(0, 1800, None, 500), Pause::Retry(2500));
    assert_eq!(set.governors[1].wait(0, 100, None, 500), Pause::Sleep(0));
    assert_eq!(
        set.governors[0].wait(0, 0, None, i64::MAX),
        Pause::OutOfBounds
    );
}
