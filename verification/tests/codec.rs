//! Tests for the codec: every value decodes back to itself, and a decoder
//! refuses byte strings of another shape.

use mynode::codec::{decode_str, decode_u64, encode_str, encode_u64, u64_to_string};
use mynode::raft::log::{decode_entry, encode_entry, Entry};

#[test]
fn u64_round_trip() {
    for n in [0u64, 1, 9, 10, 255, 256, 65535, 1 << 40, u64::MAX] {
        let bytes = encode_u64(n);
        assert_eq!(Some(n), decode_u64(&bytes));
    }
    assert_eq!(None, decode_u64(&vec![]));
    assert_eq!(None, decode_u64(&vec![0x02, 0x01]));
}

#[test]
fn str_round_trip() {
    for s in ["", "a", "voted_for", "nØdé"] {
        let bytes = encode_str(s);
        assert_eq!(Some(s.to_owned()), decode_str(&bytes));
    }
    assert_eq!(None, decode_str(&vec![]));
    // A string value must carry the string tag.
    assert_eq!(None, decode_str(&vec![0x02, b'a']));
}

#[test]
fn entry_round_trip() {
    let noop = Entry { term: 7, command: None };
    let bytes = encode_entry(&noop);
    assert_eq!(Some(Entry { term: 7, command: None }), decode_entry(&bytes));

    let cmd = Entry { term: 3, command: Some(vec![0x01, 0x02, 0x03]) };
    let bytes = encode_entry(&cmd);
    assert_eq!(
        Some(Entry { term: 3, command: Some(vec![0x01, 0x02, 0x03]) }),
        decode_entry(&bytes)
    );

    assert_eq!(None, decode_entry(&vec![0x01, 0x02]));
}

#[test]
fn decimal_strings() {
    assert_eq!("0", u64_to_string(0));
    assert_eq!("7", u64_to_string(7));
    assert_eq!("10", u64_to_string(10));
    assert_eq!("305", u64_to_string(305));
    assert_eq!("18446744073709551615", u64_to_string(u64::MAX));
}
