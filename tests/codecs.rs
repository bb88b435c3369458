use bee_core::b1t6::{decode, decode_group};
use bee_core::messages::{Heartbeat, HEARTBEAT_SIZE};

#[test]
fn group_in_range() {
    assert_eq!(decode_group(1, 1), Ok(28));
    assert_eq!(decode_group(-13, -4), Ok(-121));
    assert_eq!(decode_group(13, 4), Ok(121));
    assert_eq!(decode_group(0, 5), Err(()));
    assert_eq!(decode_group(0, -5), Err(()));
}

#[test]
fn decode_bytes() {
    // tryte values 1 and 1 -> 28; then -1 and 0 -> -1 (255)
    let trits: Vec<i8> = vec![1, 0, 0, 1, 0, 0, -1, 0, 0, 0, 0, 0];
    assert_eq!(decode(&trits), Some(vec![28u8, 255u8]));
    assert_eq!(decode(&[]), Some(vec![]));
}

#[test]
fn decode_rejects() {
    assert_eq!(decode(&[1, 0, 0]), None);
    assert_eq!(decode(&[2, 0, 0, 0, 0, 0]), None);
    // 13 + 27 * 13 is out of a byte's range
    assert_eq!(decode(&[1, 1, 1, 1, 1, 1]), None);
}

#[test]
fn heartbeat_bytes() {
    let hb = Heartbeat::new(0x01020304, 7, 0xffff_ffff);
    let b = hb.to_bytes();
    assert_eq!(b, vec![1, 2, 3, 4, 0, 0, 0, 7, 255, 255, 255, 255]);
    assert_eq!(Heartbeat::from_bytes(&b), Some(hb));
    assert_eq!(Heartbeat::from_bytes(&b[..11]), None);
    assert_eq!(Heartbeat::size_range(), (HEARTBEAT_SIZE, HEARTBEAT_SIZE));
}
