use pretty_snowflake::pretty::damm;

#[test]
fn damm_test_calculate_check_digit() {
    let actual = damm::encode("572");
    assert_eq!(&actual, "5724");
    let actual = damm::encode("43881234567");
    assert_eq!(&actual, "438812345679");
    let with_checksum = damm::encode(&format!("{}", i64::MAX));
    assert_eq!(damm::is_valid(&with_checksum), true);
}

#[test]
fn damm_test_fail_on_checking_check_digit() {
    let with_checksum = damm::encode(&format!("{}", i64::MAX));

    for i in 0..with_checksum.len() {
        let mut sb_bytes: Vec<u8> = with_checksum.as_bytes().iter().copied().collect();
        let old_char = sb_bytes[i];
        let new_char = 47 + ((old_char + 1) % 10);
        let item = &mut sb_bytes[i];
        *item = new_char;
        let corrupted = String::from_utf8_lossy(sb_bytes.as_slice());
        assert_eq!(damm::is_valid(corrupted.as_ref()), false);
    }
}

#[test]
fn tests_test_calculate_check_digit() {
    let actual = damm::encode("572");
    assert_eq!(&actual, "5724");
    let actual = damm::encode("43881234567");
    assert_eq!(&actual, "438812345679");
    let with_checksum = damm::encode(&format!("{}", i64::MAX));
    assert_eq!(damm::is_valid(&with_checksum), true);
}

#[test]
fn tests_test_fail_on_checking_check_digit() {
    let with_checksum = damm::encode(&format!("{}", i64::MAX));

    for i in 0..with_checksum.len() {
        let mut sb_bytes: Vec<u8> = with_checksum.as_bytes().iter().copied().collect();
        let old_char = sb_bytes[i];
        let new_char = 47 + ((old_char + 1) % 10);
        let item = &mut sb_bytes[i];
        *item = new_char;
        let corrupted = String::from_utf8_lossy(sb_bytes.as_slice());
        assert_eq!(damm::is_valid(corrupted.as_ref()), false);
    }
}

#[test]
fn test_checksum_scenario() {
    assert_eq!(damm::encode("572"), "5724".to_string());
    assert!(damm::is_valid("5724"));
    assert!(!damm::is_valid("5734"));
}

#[test]
fn test_fail_on_adjacent_transposition() {
    let valid = damm::encode("43881234567");
    let bytes = valid.as_bytes();
    for i in 0..bytes.len() - 1 {
        if bytes[i] == bytes[i + 1] {
            continue;
        }
        let mut swapped = bytes.to_vec();
        swapped.swap(i, i + 1);
        let corrupted = String::from_utf8(swapped).unwrap();
        assert_eq!(damm::is_valid(&corrupted), false);
    }
}

#[test]
fn test_decode_strips_check_digit() {
    assert_eq!(damm::decode("5724"), Some("572"));
    assert_eq!(damm::decode("5734"), None);
    assert_eq!(damm::decode(""), None);
}

#[test]
fn test_non_digits_do_not_participate() {
    // only digit characters advance the checksum state
    assert_eq!(damm::checksum("5a7b2"), damm::checksum("572"));
    assert!(damm::is_valid("5x7y2z4"));
}
