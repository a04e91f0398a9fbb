use cao_queue::message_map::{Key, MessageMap};
use cao_queue::MessageId;

#[test]
fn insert_bunch() {
    let mut map = MessageMap::with_capacity(1);

    for i in 0..256 {
        // trigger a few resizes
        map.insert(MessageId(i), "hello world".to_string());
    }
}

#[test]
fn get_finds_inserted_values() {
    let mut map = MessageMap::with_capacity(1);
    for i in 0..300u64 {
        map.insert(MessageId(i), i * 2);
    }
    assert_eq!(map.len(), 300);
    // ids 0 and 1 share a key: the later insert holds it
    assert_eq!(map.get(MessageId(0)).map(|v| *v), Some(2));
    for i in 1..300u64 {
        assert_eq!(map.get(MessageId(i)).map(|v| *v), Some(i * 2));
    }
    assert!(map.get(MessageId(1000)).is_none());
    map.insert(MessageId(5), 55);
    assert_eq!(map.get(MessageId(5)).map(|v| *v), Some(55));
    // every insert counts, an overwrite too
    assert_eq!(map.len(), 301);
}

#[test]
fn keys_are_mixed_and_never_zero() {
    assert_ne!(Key::from_u32(0), Key(0));
    assert_eq!(Key::from_u32(0), Key::from_u32(1));
    assert_eq!(Key::from_u64(0), Key::from_u64(1));
    assert_eq!(Key::from_u64(7), Key::from_u32(7));
    for k in 0..1000u32 {
        assert_ne!(Key::from_u32(k).0, 0);
    }
    // one round of the mixer on 1: (1 ^ 0) * 0x45d0f3b
    let one = 0x45d0f3bu64;
    let two = (((one >> 16) ^ one) * 0x45d0f3b) & 0xffff_ffff;
    let expected = ((two >> 16) ^ two) as u32;
    assert_eq!(Key::from_u32(1), Key(expected));
}

#[test]
fn distinct_small_ids_get_distinct_keys() {
    let mut keys: Vec<u32> = (1..20_000u32).map(|k| Key::from_u32(k).0).collect();
    keys.extend([u32::MAX, u32::MAX - 1, 1 << 16, (1 << 16) + 1].iter().map(|&k| Key::from_u32(k).0));
    let n = keys.len();
    keys.sort_unstable();
    keys.dedup();
    assert_eq!(keys.len(), n);
}
