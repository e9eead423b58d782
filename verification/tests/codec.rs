use pretty_snowflake::{Alphabet, AlphabetCodec, Codec};

#[test]
fn codec_test_encode_value() {
    let codec = AlphabetCodec::default();
    assert_eq!(codec.encode(23), "BA".to_string());
    assert_eq!(codec.encode(529), "BAA".to_string());
    assert_eq!(codec.encode(12167), "BAAA".to_string());
}

#[test]
fn codec_test_decode_value() {
    let codec = AlphabetCodec::default();
    assert_eq!(codec.decode("BA"), 23);
    assert_eq!(codec.decode("ABA"), 23);
    assert_eq!(codec.decode("BAA"), 529);
    assert_eq!(codec.decode("BAB"), 530);
    assert_eq!(codec.decode("BAAA"), 12167);
    assert_eq!(codec.decode("HAPK"), 85477);
    assert_eq!(codec.decode("HPJD"), 92233);
}

#[test]
fn tests_test_encode_value() {
    let codec = AlphabetCodec::default();
    assert_eq!(codec.encode(23), "BA".to_string());
    assert_eq!(codec.encode(529), "BAA".to_string());
    assert_eq!(codec.encode(12167), "BAAA".to_string());
}

#[test]
fn tests_test_decode_value() {
    let codec = AlphabetCodec::default();
    assert_eq!(codec.decode("BA"), 23);
    assert_eq!(codec.decode("ABA"), 23);
    assert_eq!(codec.decode("BAA"), 529);
    assert_eq!(codec.decode("BAB"), 530);
    assert_eq!(codec.decode("BAAA"), 12167);
    assert_eq!(codec.decode("HAPK"), 85477);
    assert_eq!(codec.decode("HPJD"), 92233);
}

#[test]
fn test_encode_zero_is_first_symbol() {
    let codec = AlphabetCodec::default();
    assert_eq!(codec.encode(0), "A".to_string());
    let short = AlphabetCodec::new(Alphabet::new("ABC"));
    assert_eq!(short.encode(0), "A".to_string());
    assert_eq!(short.encode(5), "BC".to_string());
    assert_eq!(short.decode("BC"), 5);
}

#[test]
fn test_encode_decode_round_small_alphabet() {
    let codec = AlphabetCodec::new(Alphabet::new("ABC"));
    for n in 0..200i64 {
        assert_eq!(codec.decode(&codec.encode(n)), n);
    }
}

#[test]
fn test_try_decode_overflow() {
    let codec = AlphabetCodec::default();
    // 23^15 already exceeds i64::MAX, so a long string of the largest symbol
    // cannot denote a representable value
    assert_eq!(codec.try_decode("ZZZZZZZZZZZZZZZZ"), None);
    assert_eq!(codec.try_decode("HPJD"), Some(92233));
}

#[test]
fn test_alphabet_lookup() {
    let alphabet = Alphabet::new("ABCDEFGHJKLMNPQRSTUVXYZ");
    assert_eq!(alphabet.base, 23);
    assert_eq!(alphabet.value_of(0), 'A');
    assert_eq!(alphabet.value_of(22), 'Z');
    assert_eq!(alphabet.index_of('B'), 1);
    assert_eq!(alphabet.index_of('Z'), 22);
    assert_eq!(alphabet.position_of('I'), None);
    assert_eq!(alphabet.position_of('H'), Some(7));
}
