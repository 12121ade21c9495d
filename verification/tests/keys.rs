use matching_engine::matches::MatchKey;
use matching_engine::offers::{Offer, OfferKey, OfferValue, Security, Side};
use matching_engine::typed_tree::{counter_after, read_be_u64, u64_from_be_bytes, u64_to_be_bytes};

#[test]
fn offer_key_round_trip() {
    for v in [0u64, 1, 255, 256, 67_899_000, u64::MAX] {
        let k = OfferKey::from(v);
        assert_eq!(k.as_bytes(), &v.to_be_bytes());
        assert_eq!(u64::from(k), v);
    }
    let k: OfferKey = [0, 0, 0, 0, 0, 0, 1, 2].into();
    assert_eq!(k.to_u64(), 258);
    let b: &[u8] = k.as_ref();
    assert_eq!(b, &[0, 0, 0, 0, 0, 0, 1, 2]);
}

#[test]
fn match_key_round_trip() {
    let k = MatchKey::from(0x0102_0304_0506_0708u64);
    assert_eq!(k.as_bytes(), &[1, 2, 3, 4, 5, 6, 7, 8]);
    assert_eq!(u64::from(k), 0x0102_0304_0506_0708);
    let k = MatchKey::from([9u8, 0, 0, 0, 0, 0, 0, 0]);
    assert_eq!(k.to_u64(), 9u64 << 56);
}

#[test]
fn big_endian_bytes() {
    assert_eq!(u64_to_be_bytes(0x0a0b_0c0d_0e0f_1011), [0x0a, 0x0b, 0x0c, 0x0d, 0x0e, 0x0f, 0x10, 0x11]);
    assert_eq!(u64_from_be_bytes([0, 0, 0, 0, 0, 0, 0x01, 0x00]), 256);
    assert_eq!(u64_from_be_bytes(u64_to_be_bytes(67_899_000)), 67_899_000);
}

#[test]
fn read_be_u64_advances() {
    let data = [0u8, 0, 0, 0, 0, 0, 0, 42, 7, 8];
    let mut input: &[u8] = &data;
    assert_eq!(read_be_u64(&mut input), 42);
    assert_eq!(input, &[7, 8]);
}

#[test]
fn counter_after_max_key() {
    assert_eq!(counter_after(None), 1);
    let k = 41u64.to_be_bytes();
    assert_eq!(counter_after(Some(&k)), 42);
    let k = (u64::MAX - 1).to_be_bytes();
    assert_eq!(counter_after(Some(&k)), u64::MAX);
}

#[test]
fn opposite_side() {
    let o = Offer {
        key: OfferKey::from(3),
        value: OfferValue { security: Security::USD, side: Side::Sell, amount: 1, price: None },
    };
    assert_eq!(o.opposite_side(), Side::Buy);
    let o = Offer {
        key: OfferKey::from(3),
        value: OfferValue { security: Security::COP, side: Side::Buy, amount: 1, price: Some(2) },
    };
    assert_eq!(o.opposite_side(), Side::Sell);
}
