use kvlog::codec::{decode, encode, length_prefixes, Cursor, Entry, StoreError, HEADER_LEN};

fn entry(key: &[u8], value: &[u8]) -> Entry {
    Entry { key: key.to_vec(), value: value.to_vec() }
}

#[test]
fn encode_lays_out_lengths_then_key_then_value() {
    let bytes = encode(&entry(b"a", b"bc")).unwrap();
    assert_eq!(bytes, vec![1, 0, 0, 0, 2, 0, 0, 0, 97, 98, 99]);
}

#[test]
fn encode_writes_lengths_little_endian() {
    let key = vec![7u8; 258];
    let value = vec![9u8; 65539];
    let bytes = encode(&Entry { key: key.clone(), value: value.clone() }).unwrap();
    assert_eq!(&bytes[0..4], &[2, 1, 0, 0]);
    assert_eq!(&bytes[4..8], &[3, 0, 1, 0]);
    assert_eq!(&bytes[8..8 + 258], &key[..]);
    assert_eq!(&bytes[8 + 258..], &value[..]);
    assert_eq!(bytes.len(), 8 + 258 + 65539);
}

#[test]
fn record_length_is_header_plus_fields() {
    assert_eq!(HEADER_LEN, 8);
    assert_eq!(encode(&entry(b"test", b"hello world")).unwrap().len(), 8 + 4 + 11);
}

#[test]
fn round_trip_gives_back_the_entry() {
    let written = entry(b"test", b"hello world");
    let bytes = encode(&written).unwrap();
    let mut cursor = Cursor::new(&bytes);
    assert_eq!(decode(&mut cursor), Ok(Some(written)));
    assert_eq!(cursor.offset(), bytes.len());
    assert_eq!(cursor.remaining(), 0);
    assert_eq!(decode(&mut cursor), Ok(None));
}

#[test]
fn round_trip_keeps_every_byte_value() {
    let key: Vec<u8> = (0u8..=255).collect();
    let value: Vec<u8> = (0u8..=255).rev().collect();
    let written = Entry { key, value };
    let bytes = encode(&written).unwrap();
    let mut cursor = Cursor::new(&bytes);
    assert_eq!(decode(&mut cursor), Ok(Some(written)));
}

#[test]
fn empty_fields_encode_and_decode() {
    let both = encode(&entry(b"", b"")).unwrap();
    assert_eq!(both, vec![0u8; 8]);
    let mut cursor = Cursor::new(&both);
    assert_eq!(decode(&mut cursor), Ok(Some(entry(b"", b""))));
    assert_eq!(cursor.offset(), 8);

    let no_key = encode(&entry(b"", b"v")).unwrap();
    assert_eq!(no_key, vec![0, 0, 0, 0, 1, 0, 0, 0, b'v']);
    let mut cursor = Cursor::new(&no_key);
    assert_eq!(decode(&mut cursor), Ok(Some(entry(b"", b"v"))));

    let no_value = encode(&entry(b"k", b"")).unwrap();
    assert_eq!(no_value, vec![1, 0, 0, 0, 0, 0, 0, 0, b'k']);
    let mut cursor = Cursor::new(&no_value);
    assert_eq!(decode(&mut cursor), Ok(Some(entry(b"k", b""))));
}

#[test]
fn decode_of_no_bytes_is_end_of_stream() {
    let mut cursor = Cursor::new(&[]);
    assert_eq!(decode(&mut cursor), Ok(None));
    assert_eq!(cursor.offset(), 0);
}

#[test]
fn decode_of_a_short_header_is_corrupt() {
    let bytes = encode(&entry(b"key", b"value")).unwrap();
    for n in 1..8 {
        let mut cursor = Cursor::new(&bytes[..n]);
        assert_eq!(decode(&mut cursor), Err(StoreError::CorruptRecord));
        assert_eq!(cursor.offset(), 0);
    }
}

#[test]
fn decode_of_a_short_body_is_corrupt() {
    let bytes = encode(&entry(b"key", b"value")).unwrap();
    for n in 8..bytes.len() {
        let mut cursor = Cursor::new(&bytes[..n]);
        assert_eq!(decode(&mut cursor), Err(StoreError::CorruptRecord));
        assert_eq!(cursor.offset(), 0);
        assert_eq!(cursor.remaining(), n);
    }
}

#[test]
fn decode_of_a_length_beyond_the_buffer_is_corrupt() {
    let bytes = [255, 255, 255, 255, 255, 255, 255, 255, 1, 2, 3];
    let mut cursor = Cursor::new(&bytes);
    assert_eq!(decode(&mut cursor), Err(StoreError::CorruptRecord));
}

#[test]
fn decode_moves_the_cursor_from_record_to_record() {
    let first = entry(b"a", b"1");
    let second = entry(b"bb", b"22");
    let mut bytes = encode(&first).unwrap();
    bytes.extend(encode(&second).unwrap());
    let mut cursor = Cursor::new(&bytes);
    assert_eq!(decode(&mut cursor), Ok(Some(first)));
    assert_eq!(cursor.offset(), 10);
    assert_eq!(cursor.remaining(), 12);
    assert_eq!(decode(&mut cursor), Ok(Some(second)));
    assert_eq!(cursor.offset(), 22);
    assert_eq!(decode(&mut cursor), Ok(None));
    assert_eq!(cursor.offset(), 22);
}

#[test]
fn length_prefixes_accepts_what_fits_four_bytes() {
    assert_eq!(length_prefixes(0, 0), Ok((0, 0)));
    assert_eq!(length_prefixes(4, 11), Ok((4, 11)));
    let most = u32::MAX as usize;
    assert_eq!(length_prefixes(most, most), Ok((u32::MAX, u32::MAX)));
}

#[test]
fn length_prefixes_refuses_a_key_that_is_too_large() {
    let too_large = (u32::MAX as u64 + 1) as usize;
    assert_eq!(length_prefixes(too_large, 0), Err(StoreError::KeyTooLarge));
    assert_eq!(length_prefixes(too_large, too_large), Err(StoreError::KeyTooLarge));
    assert_eq!(length_prefixes(usize::MAX, 3), Err(StoreError::KeyTooLarge));
}

#[test]
fn length_prefixes_refuses_a_value_that_is_too_large() {
    let too_large = (u32::MAX as u64 + 1) as usize;
    assert_eq!(length_prefixes(0, too_large), Err(StoreError::ValueTooLarge));
    assert_eq!(length_prefixes(u32::MAX as usize, usize::MAX), Err(StoreError::ValueTooLarge));
}
