use tsalign::cost::U64Cost;

#[test]
fn infinity_absorbs_addition() {
    let inf = U64Cost::max_value();
    for value in [0u64, 1, 17, u64::MAX - 1, u64::MAX] {
        let c = U64Cost::from_u64(value);
        assert_eq!(inf.add(c), inf);
        assert_eq!(c.add(inf), inf);
    }
}

#[test]
fn infinity_is_neutral_for_min() {
    let inf = U64Cost::max_value();
    for value in [0u64, 5, u64::MAX] {
        let c = U64Cost::from_u64(value);
        assert_eq!(c.min(inf), c);
        assert_eq!(inf.min(c), c);
    }
}

#[test]
fn arithmetic_saturates() {
    assert_eq!(U64Cost::from_u64(u64::MAX - 1).add(5.into()), U64Cost::max_value());
    assert_eq!(U64Cost::from_u64(3).add(4.into()), 7.into());
    assert_eq!(U64Cost::from_u64(3).saturating_sub(4.into()), U64Cost::zero());
    assert_eq!(U64Cost::from_u64(9).saturating_sub(4.into()), 5.into());
    assert_eq!(U64Cost::max_value().saturating_sub(4.into()), U64Cost::max_value());
    assert_eq!(U64Cost::from_u64(2).min(7.into()), 2.into());
    assert_eq!(U64Cost::from_u64(2).compare(7.into()), std::cmp::Ordering::Less);
    assert_eq!(U64Cost::from_u64(7).compare(7.into()), std::cmp::Ordering::Equal);
    assert!(U64Cost::max_value().is_max());
    assert_eq!(U64Cost::from_u64(12).as_u64(), 12);
}
