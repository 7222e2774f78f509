//! Tests for the in-memory store: point operations and the ordered prefix
//! scan.

use mynode::store::{KVMemory, Store};

fn test_delete() {
    let mut s = KVMemory::new();
    s.set("a", vec![0x01]).unwrap();
    assert_eq!(vec![0x01], s.get("a").unwrap().unwrap());
    s.delete("a").unwrap();
    assert_eq!(None, s.get("a").unwrap());
    s.delete("b").unwrap();
}

fn test_get() {
    let mut s = KVMemory::new();
    s.set("a", vec![0x01]).unwrap();
    assert_eq!(vec![0x01], s.get("a").unwrap().unwrap());
    assert_eq!(None, s.get("b").unwrap());
}

fn test_set() {
    let mut s = KVMemory::new();
    s.set("a", vec![0x01]).unwrap();
    assert_eq!(vec![0x01], s.get("a").unwrap().unwrap());
    s.set("a", vec![0x02]).unwrap();
    assert_eq!(vec![0x02], s.get("a").unwrap().unwrap());
}

fn test_iter_prefix() {
    let mut s = KVMemory::new();
    s.set("a", vec![0x01]).unwrap();
    s.set("b", vec![0x02]).unwrap();
    s.set("ba", vec![0x02, 0x01]).unwrap();
    s.set("bb", vec![0x02, 0x02]).unwrap();
    s.set("c", vec![0x03]).unwrap();

    assert_eq!(
        vec![
            ("b".to_string(), vec![0x02]),
            ("ba".to_string(), vec![0x02, 0x01]),
            ("bb".to_string(), vec![0x02, 0x02]),
        ],
        s.iter_prefix("b").unwrap()
    )
}

#[test]
fn suite() {
    test_delete();
    test_get();
    test_iter_prefix();
    test_set();
}
