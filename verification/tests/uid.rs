use argus::error::Error;
use argus::uid::{builder, Uid};

#[test]
fn test_uid_nil() {
    let uid: Uid = Uid(0);

    assert_eq!(uid.to_string(), "00000000000000000000000000");

    let dup_uid: Uid = Uid::parse(&uid.to_string()).unwrap();
    assert_eq!(uid, dup_uid);
}

#[test]
fn test_latest_uid() {
    let uid: Uid = Uid(!0);

    assert_eq!(uid.to_string(), "7ZZZZZZZZZZZZZZZZZZZZZZZZZ");

    let dup_uid: Uid = Uid::parse(&uid.to_string()).unwrap();
    assert_eq!(uid, dup_uid);
}

#[test]
fn test_builder_with_pid() {
    let mut builder = builder().process_id(0x72);
    let uid: Uid = builder.gen();

    assert_eq!(uid.process_id(), 0x72);

    let dup_uid: Uid = Uid::parse(&uid.to_string()).unwrap();
    assert_eq!(uid, dup_uid);
}

#[test]
fn test_builder_with_cid() {
    let mut builder = builder().cluster_id(0x72);
    let uid: Uid = builder.gen();

    assert_eq!(uid.cluster_id(), 0x72);

    let dup_uid: Uid = Uid::parse(&uid.to_string()).unwrap();
    assert_eq!(uid, dup_uid);
}

#[test]
fn test_uid() {
    let mut b = builder();
    let uid: Uid = b.gen();

    let dup_uid: Uid = Uid::parse(&uid.to_string()).unwrap();
    assert_eq!(uid, dup_uid);
}

#[test]
fn builder_builder() {
    let mut builder = builder();

    for _ in 0..32 {
        assert!(builder.gen_by_strict(true).is_some());
    }

    for _ in 0..4096 {
        assert!(builder.gen_by_strict(false).is_some());
    }
}

#[test]
fn strict_burst_is_increasing() {
    let mut builder = builder();
    let mut last: u128 = 0;
    for _ in 0..16 {
        let uid = builder.gen_by_ms(1_700_000_000_000, true).unwrap();
        assert!(uid.0 > last);
        assert_eq!(uid.timestamp_ms(), 1_700_000_000_000);
        last = uid.0;
    }
}

#[test]
fn strict_burst_with_overrides_is_increasing() {
    let mut builder = builder().cluster_id(0x12).process_id(0x34);
    let mut last: u128 = 0;
    for _ in 0..16 {
        let uid = builder.gen_by_ms(42, true).unwrap();
        assert!(uid.0 > last);
        assert_eq!(uid.cluster_id(), 0x12);
        assert_eq!(uid.process_id(), 0x34);
        last = uid.0;
    }
}

#[test]
fn accessors_take_the_fields_apart() {
    let uid = Uid((0x0123_4567_89ABu128 << 80) | 0xFFFF_FFFF_FFFF_FFFF_A5C3);
    assert_eq!(uid.timestamp_ms(), 0x0123_4567_89AB);
    assert_eq!(uid.cluster_id(), 0xA5);
    assert_eq!(uid.process_id(), 0xC3);
}

#[test]
fn text_of_a_known_value() {
    assert_eq!(Uid(32).to_string(), "00000000000000000000000010");
    assert_eq!(Uid(31).to_string(), "0000000000000000000000000Z");
    assert_eq!(Uid::parse("0000000000000000000000000Z"), Ok(Uid(31)));
    assert_eq!(Uid::parse("00000000000000000000000010"), Ok(Uid(32)));
    assert_eq!(Uid::parse("0000000000000000000000ABCD"), Ok(Uid(10 * 32768 + 11 * 1024 + 12 * 32 + 13)));
}

#[test]
fn parse_rejects_what_is_no_uid() {
    assert_eq!(Uid::parse(""), Err(Error::BadUid));
    assert_eq!(Uid::parse("0000000000000000000000000"), Err(Error::BadUid));
    assert_eq!(Uid::parse("000000000000000000000000000"), Err(Error::BadUid));
    assert_eq!(Uid::parse("0000000000000000000000000I"), Err(Error::BadUid));
    assert_eq!(Uid::parse("0000000000000000000000000L"), Err(Error::BadUid));
    assert_eq!(Uid::parse("0000000000000000000000000O"), Err(Error::BadUid));
    assert_eq!(Uid::parse("0000000000000000000000000U"), Err(Error::BadUid));
    assert_eq!(Uid::parse("0000000000000000000000000a"), Err(Error::BadUid));
    assert_eq!(Uid::parse("00000000000000000000000\u{e9}0"), Err(Error::BadUid));
}

#[test]
fn parse_keeps_the_low_128_bits() {
    assert_eq!(Uid::parse("80000000000000000000000000"), Ok(Uid(0)));
    assert_eq!(Uid::parse("ZZZZZZZZZZZZZZZZZZZZZZZZZZ"), Ok(Uid(!0)));
}

#[test]
fn gen_uid_combines_time_and_randomness() {
    let plain = builder();
    assert_eq!(plain.gen_uid(1, 0x1234), (1u128 << 80) | 0x1234);
    assert_eq!(plain.gen_uid(1, 1u128 << 80), 1u128 << 80);
    let both = builder().cluster_id(0xAB).process_id(0xCD);
    assert_eq!(both.gen_uid(2, 0), (2u128 << 80) | 0xABCD);
    assert_eq!(
        both.gen_uid(0, 0xFFFF_FFFF_FFFF_FFFF_FFFF),
        (0xFFFF_FFFF_FFFF_FFFFu128 << 16) | 0xABCD
    );
}

#[test]
fn strict_mode_runs_out_at_the_top() {
    let mut b = builder().cluster_id(0xAB).process_id(0xCD);
    let mut minted = 0;
    let mut last: u128 = 0;
    while let Some(uid) = b.gen_by_ms(7, true) {
        assert!(uid.0 > last || minted == 0);
        last = uid.0;
        minted += 1;
        if minted > 100_000 {
            break;
        }
    }
    assert!(minted >= 1);
    if minted <= 100_000 {
        assert_eq!(last, (7u128 << 80) | (0xFFFF_FFFF_FFFF_FFFFu128 << 16) | 0xABCD);
        assert!(b.gen_by_ms(7, true).is_none());
        assert!(b.gen_by_ms(7, false).is_some());
        assert!(b.gen_by_ms(8, true).is_some());
    }
}

#[test]
fn clock_reading_is_of_this_century() {
    let mut b = builder();
    let uid = b.gen();
    assert!(uid.timestamp_ms() > 1_600_000_000_000);
}

#[test]
fn mint_names_the_exhausted_millisecond() {
    let mut b = builder().cluster_id(0xAB).process_id(0xCD);
    let mut steps = 0;
    loop {
        match b.mint(7, true) {
            Ok(uid) => {
                assert_eq!(uid.timestamp_ms(), 7);
                assert_eq!(uid.cluster_id(), 0xAB);
                assert_eq!(uid.process_id(), 0xCD);
            }
            Err(e) => {
                assert_eq!(e, Error::Exhausted);
                break;
            }
        }
        steps += 1;
        if steps > 100_000 {
            break;
        }
    }
    assert_eq!(Error::Exhausted.to_string(), "Exhausted");
}

#[test]
fn strict_burst_by_the_clock_is_increasing() {
    let mut b = builder();
    let mut last: u128 = 0;
    for _ in 0..32 {
        let uid = b.gen_by_strict(true).unwrap();
        assert!(uid.0 > last);
        last = uid.0;
    }
}

#[test]
fn only_48_bits_of_the_clock_are_kept() {
    let mut b = builder();
    let uid = b.gen_by_ms((1u64 << 48) | 5, false).unwrap();
    assert_eq!(uid.timestamp_ms(), 5);
}

#[test]
fn round_trip_of_scattered_values() {
    let mut v: u128 = 0x0123_4567_89AB_CDEF_0F1E_2D3C_4B5A_6978;
    for _ in 0..64 {
        let text = Uid(v).to_string();
        assert_eq!(text.len(), 26);
        assert_eq!(Uid::parse(&text), Ok(Uid(v)));
        assert_eq!(Uid::parse(&text).unwrap().to_string(), text);
        v = v.wrapping_mul(6364136223846793005).wrapping_add(1442695040888963407);
    }
}
