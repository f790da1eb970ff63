use b64ct::{
    decode, decode_vec, decoded_len, encode, encode_string, encoded_len, Error,
    InvalidEncodingError, InvalidLengthError,
};

const ALPHABET: &str = "ABCDEFGHIJKLMNOPQRSTUVWXYZabcdefghijklmnopqrstuvwxyz0123456789+/";

#[test]
fn encode_empty() {
    assert_eq!(encode_string(&[]), "");
    let mut buf: Vec<u8> = Vec::new();
    assert_eq!(encode(&[], &mut buf), Ok(0));
}

#[test]
fn encode_one_zero_byte() {
    assert_eq!(encode_string(&[0x00]), "AA");
}

#[test]
fn encode_three_ff_bytes() {
    assert_eq!(encode_string(&[0xFF, 0xFF, 0xFF]), "////");
}

#[test]
fn decode_four_slashes() {
    assert_eq!(decode_vec("////"), Ok(vec![0xFF, 0xFF, 0xFF]));
}

#[test]
fn decode_rejects_padding_character() {
    assert_eq!(decode_vec("A=B"), Err(InvalidEncodingError));
}

#[test]
fn decode_rejects_length_one() {
    assert_eq!(decode_vec("A"), Err(InvalidEncodingError));
}

#[test]
fn encoded_len_matches_ceiling() {
    let cases: [(usize, usize); 8] = [
        (0, 0),
        (1, 2),
        (2, 3),
        (3, 4),
        (4, 6),
        (5, 7),
        (6, 8),
        (30, 40),
    ];
    for (n, want) in cases {
        assert_eq!(encoded_len(&vec![0u8; n]), want);
    }
}

#[test]
fn decoded_len_matches_floor() {
    let cases: [(usize, usize); 9] = [
        (0, 0),
        (1, 0),
        (2, 1),
        (3, 2),
        (4, 3),
        (5, 3),
        (6, 4),
        (7, 5),
        (8, 6),
    ];
    for (m, want) in cases {
        let text: String = "A".repeat(m);
        assert_eq!(decoded_len(&text), want);
    }
}

#[test]
fn round_trip_all_byte_values() {
    let mut data: Vec<u8> = Vec::new();
    for b in 0..=255u8 {
        data.push(b);
    }
    let text = encode_string(&data);
    assert_eq!(decode_vec(&text), Ok(data));
}

#[test]
fn round_trip_partial_chunks() {
    for len in 0..20usize {
        let data: Vec<u8> = (0..len).map(|i| (37 * i + 11) as u8).collect();
        let text = encode_string(&data);
        assert_eq!(text.len(), encoded_len(&data));
        assert_eq!(decode_vec(&text), Ok(data));
    }
}

#[test]
fn round_trip_through_caller_buffers() {
    let data: Vec<u8> = vec![0x12, 0x34, 0x56, 0x78, 0x9A];
    let mut enc = vec![0u8; encoded_len(&data)];
    let n = encode(&data, &mut enc).unwrap();
    assert_eq!(n, enc.len());
    let text = std::str::from_utf8(&enc).unwrap();
    let mut dec = vec![0u8; decoded_len(text)];
    let m = decode(text, &mut dec).unwrap();
    assert_eq!(&dec[..m], &data[..]);
}

#[test]
fn encode_emits_only_alphabet_bytes() {
    let data: Vec<u8> = (0..=255u8).collect();
    let text = encode_string(&data);
    for b in text.bytes() {
        assert!(ALPHABET.as_bytes().contains(&b), "byte {b} outside the alphabet");
    }
}

#[test]
fn encode_covers_whole_alphabet() {
    for v in 0..64u8 {
        let text = encode_string(&[v << 2]);
        let want = ALPHABET.as_bytes()[v as usize];
        assert_eq!(text.as_bytes()[0], want);
    }
}

#[test]
fn decode_maps_every_symbol_back() {
    for v in 0..64u8 {
        let sym = ALPHABET.as_bytes()[v as usize];
        let text = String::from_utf8(vec![sym, b'A']).unwrap();
        let bytes = decode_vec(&text).unwrap();
        assert_eq!(bytes, vec![v << 2]);
    }
}

#[test]
fn decode_rejects_invalid_byte_at_any_position() {
    for pos in 0..8usize {
        let mut text: Vec<u8> = vec![b'A'; 8];
        text[pos] = b'=';
        let text = String::from_utf8(text).unwrap();
        assert_eq!(decode_vec(&text), Err(InvalidEncodingError));
    }
    for bad in ["~AAA", "AA A", "AAA.", "\u{00e9}AAA"] {
        assert_eq!(decode_vec(bad), Err(InvalidEncodingError));
    }
}

#[test]
fn decode_rejects_length_remainder_one() {
    for m in [1usize, 5, 9, 13] {
        let text: String = "B".repeat(m);
        assert_eq!(decode_vec(&text), Err(InvalidEncodingError));
    }
}

#[test]
fn encode_short_buffer_fails_without_writing() {
    let data = [0x00u8];
    let need = encoded_len(&data);
    assert_eq!(need, 2);
    let mut buf = vec![0xEEu8; need - 1];
    assert_eq!(encode(&data, &mut buf), Err(InvalidLengthError));
    assert_eq!(buf, vec![0xEEu8; need - 1]);
}

#[test]
fn decode_short_buffer_fails_without_writing() {
    let text = "AAAA";
    let need = decoded_len(text);
    assert_eq!(need, 3);
    let mut buf = vec![0xEEu8; need - 1];
    assert_eq!(decode(text, &mut buf), Err(Error::InvalidLength));
    assert_eq!(buf, vec![0xEEu8; need - 1]);
}

#[test]
fn decode_short_buffer_reported_before_invalid_encoding() {
    let mut buf: Vec<u8> = Vec::new();
    assert_eq!(decode("A=B", &mut buf), Err(Error::InvalidLength));
}

#[test]
fn decode_leaves_bytes_past_the_result_untouched() {
    let mut buf = vec![0xEEu8; 5];
    let n = decode("AAAA", &mut buf).unwrap();
    assert_eq!(n, 3);
    assert_eq!(&buf[..3], &[0, 0, 0]);
    assert_eq!(&buf[3..], &[0xEE, 0xEE]);
}

#[test]
fn encode_known_phrase() {
    let text = encode_string(b"hello world");
    assert_eq!(text, "aGVsbG8gd29ybGQ");
    assert_eq!(decode_vec(&text), Ok(b"hello world".to_vec()));
}
