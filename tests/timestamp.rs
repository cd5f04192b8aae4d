use sonnerie_core::Timestamp;

#[test]
fn timestamp_range() {
    assert_eq!(Timestamp(::std::u64::MAX).to_sqlite(), ::std::i64::MAX);
    assert_eq!(Timestamp(500).to_sqlite(), ::std::i64::MIN + 500);
    assert_eq!(Timestamp(0).to_sqlite(), ::std::i64::MIN);

    assert_eq!(Timestamp::from_sqlite(::std::i64::MIN).0, 0);
    assert_eq!(Timestamp::from_sqlite(0).0 - 1, ::std::i64::MAX as u64);

    for some in &[::std::i64::MIN, ::std::i64::MIN + 100, 0, 100, ::std::i64::MAX - 1000] {
        assert_eq!(Timestamp::from_sqlite(*some).to_sqlite(), *some);
    }
}

#[test]
fn timestamp_order_is_kept() {
    let values = [0u64, 1, 499, 500, 1 << 63, (1 << 63) + 1, u64::MAX - 1, u64::MAX];
    for a in values.iter() {
        assert_eq!(Timestamp::from_sqlite(Timestamp(*a).to_sqlite()).0, *a);
        for b in values.iter() {
            assert_eq!(a < b, Timestamp(*a).to_sqlite() < Timestamp(*b).to_sqlite());
        }
    }
}

#[test]
fn timestamps_compare_as_unsigned() {
    assert!(Timestamp(1) < Timestamp(u64::MAX));
    assert!(Timestamp(0) <= Timestamp(0));
}
