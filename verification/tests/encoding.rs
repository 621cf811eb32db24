use sweatstake::codec::GuestValue;
use sweatstake::codec::InputBuilder;
use sweatstake::codec::SerializationError;
use sweatstake::codec::ValueKind;
use sweatstake::codec::ViewCallInput;
use sweatstake::codec::decode_values;
use sweatstake::codec::encode_values;
use sweatstake::values::Address;
use sweatstake::values::U256;
use sweatstake::words::bytes_to_words;
use sweatstake::words::words_to_bytes;

fn addr(seed: u8) -> Address {
    let mut bytes = Vec::new();
    for i in 0..20u8 {
        bytes.push(seed.wrapping_add(i));
    }
    Address { bytes }
}

fn uint(v: u64) -> U256 {
    U256 { limbs: vec![v, 0, 0, 0] }
}

#[test]
fn words_round_trip_through_bytes() {
    let ws = vec![0u32, 1, 0xdeadbeef, 0xffffffff, 42];
    let bytes = words_to_bytes(&ws);
    assert_eq!(bytes.len(), 20);
    assert_eq!(&bytes[8..12], &[0xef, 0xbe, 0xad, 0xde]);
    let back = bytes_to_words(&bytes).unwrap();
    assert_eq!(back, ws);
}

#[test]
fn bytes_to_words_rejects_ragged_stream() {
    assert!(bytes_to_words(&vec![1u8, 2, 3]).is_none());
}

#[test]
fn input_builder_writes_canonical_bytes() {
    let b = InputBuilder::new();
    let b = b.write(&GuestValue::Word64(0x0102030405060708)).unwrap();
    let bytes = b.bytes();
    // Low word first, each word little-endian.
    assert_eq!(bytes, vec![0x08, 0x07, 0x06, 0x05, 0x04, 0x03, 0x02, 0x01]);
}

#[test]
fn encoder_decoder_round_trip_all_kinds() {
    let vals = vec![
        GuestValue::Input(ViewCallInput { words: vec![9, 8, 7] }),
        GuestValue::Account(addr(3)),
        GuestValue::Uint(U256 { limbs: vec![1, 2, 3, 4] }),
        GuestValue::Word64(0xfeedface),
        GuestValue::Digest(vec![0xab; 32]),
    ];
    let words = encode_values(&vals).unwrap();
    let kinds = vec![
        ValueKind::Input,
        ValueKind::Account,
        ValueKind::Uint,
        ValueKind::Word64,
        ValueKind::Digest,
    ];
    let back = decode_values(&kinds, &words).unwrap();
    assert_eq!(back.len(), 5);
    match (&back[0], &vals[0]) {
        (GuestValue::Input(a), GuestValue::Input(b)) => assert_eq!(a.words, b.words),
        _ => panic!("wrong kind"),
    }
    match (&back[1], &vals[1]) {
        (GuestValue::Account(a), GuestValue::Account(b)) => assert_eq!(a.bytes, b.bytes),
        _ => panic!("wrong kind"),
    }
    match (&back[2], &vals[2]) {
        (GuestValue::Uint(a), GuestValue::Uint(b)) => assert_eq!(a.limbs, b.limbs),
        _ => panic!("wrong kind"),
    }
    match (&back[3], &vals[3]) {
        (GuestValue::Word64(a), GuestValue::Word64(b)) => assert_eq!(a, b),
        _ => panic!("wrong kind"),
    }
    match (&back[4], &vals[4]) {
        (GuestValue::Digest(a), GuestValue::Digest(b)) => assert_eq!(a, b),
        _ => panic!("wrong kind"),
    }
}

#[test]
fn decoder_rejects_wrong_order() {
    let vals = vec![GuestValue::Word64(5)];
    let words = encode_values(&vals).unwrap();
    // One Word64 is two words; asking for a Uint (eight words) must fail.
    assert!(decode_values(&vec![ValueKind::Uint], &words).is_none());
}

#[test]
fn decoder_rejects_trailing_words() {
    let vals = vec![GuestValue::Word64(5)];
    let mut words = encode_values(&vals).unwrap();
    words.push(0);
    assert!(decode_values(&vec![ValueKind::Word64], &words).is_none());
}

#[test]
fn write_rejects_wrong_length_address() {
    let b = InputBuilder::new();
    let bad = GuestValue::Account(Address { bytes: vec![1, 2, 3] });
    assert!(matches!(b.write(&bad), Err(SerializationError::WrongLength)));
}

#[test]
fn write_rejects_wrong_width_uint() {
    let b = InputBuilder::new();
    let bad = GuestValue::Uint(U256 { limbs: vec![1, 2] });
    assert!(matches!(b.write(&bad), Err(SerializationError::WrongLength)));
}

#[test]
fn u256_orders_by_numeric_value() {
    let small = U256 { limbs: vec![u64::MAX, 0, 0, 0] };
    let big = U256 { limbs: vec![0, 1, 0, 0] };
    assert!(small.le(&big));
    assert!(!big.le(&small));
    assert!(uint(5).le(&uint(5)));
    assert!(uint(4).le(&uint(5)));
    assert!(!uint(5).le(&uint(4)));
    let top = U256 { limbs: vec![0, 0, 0, 7] };
    let mid = U256 { limbs: vec![u64::MAX, u64::MAX, u64::MAX, 6] };
    assert!(mid.le(&top));
    assert!(!top.le(&mid));
}

#[test]
fn u256_from_u64_value() {
    let v = U256::from_u64(12345);
    assert_eq!(v.limbs, vec![12345, 0, 0, 0]);
    assert!(v.eq_u256(&uint(12345)));
}
