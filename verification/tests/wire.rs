//! The wire format on plain values.

use nexacore_ui::wire::{decode_canonical, encode_canonical, WireError};

#[test]
fn unsigned_numbers_take_seven_bits_a_byte() {
    assert_eq!(encode_canonical(&0u64), Ok(vec![0]));
    assert_eq!(encode_canonical(&127u32), Ok(vec![0x7F]));
    assert_eq!(encode_canonical(&128u32), Ok(vec![0x80, 0x01]));
    assert_eq!(encode_canonical(&16384u16), Ok(vec![0x80, 0x80, 0x01]));
    assert_eq!(
        encode_canonical(&u32::MAX),
        Ok(vec![0xFF, 0xFF, 0xFF, 0xFF, 0x0F])
    );
    assert_eq!(
        encode_canonical(&u64::MAX),
        Ok(vec![0xFF, 0xFF, 0xFF, 0xFF, 0xFF, 0xFF, 0xFF, 0xFF, 0xFF, 0x01])
    );
}

#[test]
fn signed_numbers_alternate() {
    assert_eq!(encode_canonical(&0i32), Ok(vec![0]));
    assert_eq!(encode_canonical(&-1i32), Ok(vec![1]));
    assert_eq!(encode_canonical(&1i64), Ok(vec![2]));
    for n in [i32::MIN, -65, -64, 63, 64, i32::MAX] {
        let bytes = encode_canonical(&n).expect("encode");
        assert_eq!(decode_canonical::<i32>(&bytes), Ok(n));
    }
    for n in [i64::MIN, -1, i64::MAX] {
        let bytes = encode_canonical(&n).expect("encode");
        assert_eq!(decode_canonical::<i64>(&bytes), Ok(n));
    }
}

#[test]
fn texts_and_lists_carry_their_length() {
    assert_eq!(
        encode_canonical(&String::from("né")),
        Ok(vec![3, b'n', 0xC3, 0xA9])
    );
    assert_eq!(encode_canonical(&vec![7u8, 200]), Ok(vec![2, 7, 200]));
    let names = vec![String::from("a"), String::new(), String::from("xyz")];
    let bytes = encode_canonical(&names).expect("encode");
    assert_eq!(bytes, vec![3, 1, b'a', 0, 3, b'x', b'y', b'z']);
    assert_eq!(decode_canonical::<Vec<String>>(&bytes), Ok(names));
}

#[test]
fn optional_values_carry_a_presence_byte() {
    assert_eq!(encode_canonical(&None::<u32>), Ok(vec![0]));
    assert_eq!(encode_canonical(&Some(300u32)), Ok(vec![1, 0xAC, 0x02]));
    assert_eq!(decode_canonical::<Option<u32>>(&[2, 0]), Err(WireError));
}

#[test]
fn pairs_are_written_in_order() {
    let v = (7u32, (-3i64, true));
    let bytes = encode_canonical(&v).expect("encode");
    assert_eq!(bytes, vec![7, 5, 1]);
    assert_eq!(decode_canonical::<(u32, (i64, bool))>(&bytes), Ok(v));
}

#[test]
fn only_canonical_bytes_decode() {
    // A number with a superfluous last byte.
    assert_eq!(decode_canonical::<u32>(&[0x80, 0x00]), Err(WireError));
    // A number that is too large.
    assert_eq!(
        decode_canonical::<u32>(&[0xFF, 0xFF, 0xFF, 0xFF, 0x10]),
        Err(WireError)
    );
    assert_eq!(decode_canonical::<u16>(&[0x80, 0x80, 0x04]), Err(WireError));
    // Bytes left over, and bytes missing.
    assert_eq!(decode_canonical::<u32>(&[1, 0]), Err(WireError));
    assert_eq!(decode_canonical::<u32>(&[0x80]), Err(WireError));
    assert_eq!(decode_canonical::<u64>(&[]), Err(WireError));
    // Neither `false` nor `true`.
    assert_eq!(decode_canonical::<bool>(&[2]), Err(WireError));
    // Not UTF-8.
    assert_eq!(decode_canonical::<String>(&[1, 0xFF]), Err(WireError));
    // A length past the end.
    assert_eq!(decode_canonical::<Vec<u8>>(&[5, 1, 2]), Err(WireError));
    assert_eq!(
        decode_canonical::<Vec<String>>(&[0xFF, 0xFF, 0xFF, 0xFF, 0x0F, 0]),
        Err(WireError)
    );
}

#[test]
fn arbitrary_bytes_never_panic_and_decode_to_one_value() {
    // A linear congruential sequence of short messages.
    let mut state: u32 = 12345;
    for len in 0..64usize {
        let mut data = Vec::new();
        for _ in 0..len {
            state = state.wrapping_mul(1_664_525).wrapping_add(1_013_904_223);
            data.push((state >> 24) as u8);
        }
        if let Ok(v) = decode_canonical::<Vec<u8>>(&data) {
            assert_eq!(encode_canonical(&v), Ok(data.clone()));
        }
        if let Ok(v) = decode_canonical::<String>(&data) {
            assert_eq!(encode_canonical(&v), Ok(data.clone()));
        }
        if let Ok(v) = decode_canonical::<Vec<String>>(&data) {
            assert_eq!(encode_canonical(&v), Ok(data.clone()));
        }
        if let Ok(v) = decode_canonical::<u64>(&data) {
            assert_eq!(encode_canonical(&v), Ok(data.clone()));
        }
        if let Ok(v) = decode_canonical::<(u32, (i64, bool))>(&data) {
            assert_eq!(encode_canonical(&v), Ok(data.clone()));
        }
    }
}
