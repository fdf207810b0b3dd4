use vanargand::bech32::{convert_bits, decode, encode, Bech32Error, CHARSET};

fn encode_bytes(hrp: &str, version: u8, payload: &[u8]) -> String {
    let mut data = vec![version];
    data.extend(convert_bits(payload, 8, 5, true).unwrap());
    encode(hrp, &data).unwrap()
}

#[test]
fn the_charset_omits_every_confusable_character() {
    for forbidden in [b'1', b'b', b'i', b'o'] {
        assert!(!CHARSET.contains(&forbidden), "'{}' is in the charset", char::from(forbidden));
    }
    assert_eq!(CHARSET.len(), 32);
    assert_eq!(&CHARSET, b"qpzry9x8gf2tvdw0s3jn54khce6mua7l");
}

#[test]
fn bip350_test_vectors_decode() {
    let long_run = format!("11{}udsr8", "l".repeat(83));
    let mut vectors = vec![
        "A1LQFN3A".to_owned(),
        "a1lqfn3a".to_owned(),
        "an83characterlonghumanreadablepartthatcontainsthetheexcludedcharactersbioandnumber11sg7hg6"
            .to_owned(),
        "abcdef1l7aum6echk45nj3s0wdvt2fg8x9yrzpqzd3ryx".to_owned(),
        "split1checkupstagehandshakeupstreamerranterredcaperredlc445v".to_owned(),
        "?1v759aa".to_owned(),
    ];
    vectors.push(long_run);

    for valid in &vectors {
        assert!(decode(valid).is_ok(), "BIP-350 valid vector rejected: {valid}");
        assert!(valid.len() <= 90);
    }
}

#[test]
fn bip350_vectors_re_encode_identically() {
    for valid in [
        "a1lqfn3a",
        "abcdef1l7aum6echk45nj3s0wdvt2fg8x9yrzpqzd3ryx",
        "split1checkupstagehandshakeupstreamerranterredcaperredlc445v",
        "?1v759aa",
    ] {
        let (hrp, data) = decode(valid).unwrap();
        assert_eq!(encode(&hrp, &data).unwrap(), valid);
    }
}

#[test]
fn bip350_invalid_vectors_are_rejected() {
    for (invalid, why) in [
        ("qyrz8wqd2c9m", "no separator"),
        ("1qyrz8wqd2c9m", "empty hrp"),
        ("y1b0jsk6g", "invalid data character 'b'"),
        ("lt1igcx5c0", "invalid data character 'i'"),
        ("in1muywd", "too short data part"),
        ("mm1crxm3i", "invalid data character 'i'"),
        ("A1G7SGD8", "this is Bech32, not Bech32m"),
        ("16plkw9", "empty hrp"),
        ("1p2gdwpf", "empty hrp"),
    ] {
        assert!(decode(invalid).is_err(), "should have been rejected ({why}): {invalid}");
    }
}

#[test]
fn a_bech32_string_is_reported_as_bech32_not_as_a_typo() {
    assert_eq!(decode("A1G7SGD8"), Err(Bech32Error::WrongVariantBech32));
}

#[test]
fn a_32_byte_payload_round_trips() {
    let payload = [0xab_u8; 32];
    let text = encode_bytes("van", 0, &payload);
    let (hrp, data) = decode(&text).unwrap();
    assert_eq!(hrp, "van");
    assert_eq!(data.first().copied(), Some(0), "version character lost");
    let decoded = convert_bits(data.get(1..).unwrap(), 5, 8, false).unwrap();
    assert_eq!(decoded, payload);
}

#[test]
fn a_mainnet_address_is_sixty_three_characters() {
    let text = encode_bytes("van", 0, &[0; 32]);
    assert_eq!(text.len(), 63, "{text}");
    assert!(text.starts_with("van1"));
}

#[test]
fn mixed_case_is_rejected() {
    let text = encode_bytes("van", 0, &[0x11; 32]);
    let mut mixed = text.clone();
    mixed.replace_range(0..1, "V");
    assert_eq!(decode(&mixed), Err(Bech32Error::MixedCase));
    assert_eq!(decode(&text.to_uppercase()), decode(&text));
}

#[test]
fn a_single_character_change_breaks_the_checksum() {
    let text = encode_bytes("van", 0, &[0x5a; 32]);
    let bytes = text.as_bytes();
    for index in 4..bytes.len() {
        for &replacement in CHARSET.iter() {
            if bytes.get(index) == Some(&replacement) {
                continue;
            }
            let mut tampered = text.clone();
            tampered.replace_range(index..index + 1, &char::from(replacement).to_string());
            assert!(
                decode(&tampered).is_err(),
                "changing position {index} to '{}' still verified",
                char::from(replacement)
            );
        }
    }
}

#[test]
fn non_zero_padding_bits_are_rejected() {
    let mut data = vec![0_u8];
    data.extend(convert_bits(&[0xff_u8; 32], 8, 5, true).unwrap());
    if let Some(last) = data.last_mut() {
        *last |= 0b0000_1;
    }
    let text = encode("van", &data).unwrap();
    let (_, decoded) = decode(&text).unwrap();
    assert_eq!(convert_bits(decoded.get(1..).unwrap(), 5, 8, false), Err(Bech32Error::BadPadding));
}

#[test]
fn an_over_length_string_is_rejected() {
    let long_hrp = "v".repeat(90);
    assert!(matches!(encode(&long_hrp, &[0; 10]), Err(Bech32Error::TooLong(_))));
    assert!(matches!(decode(&"a".repeat(91)), Err(Bech32Error::TooLong(_))));
}

#[test]
fn an_empty_or_bad_hrp_is_rejected() {
    assert_eq!(encode("", &[0; 10]), Err(Bech32Error::EmptyHrp));
    assert!(matches!(encode("va n", &[0; 10]), Err(Bech32Error::BadHrpChar(_))));
    assert!(matches!(encode("VAN", &[0; 10]), Err(Bech32Error::BadHrpChar(_))));
}

#[test]
fn the_separator_is_the_last_one() {
    let text = encode_bytes("va1n", 0, &[0x01; 32]);
    let (hrp, _) = decode(&text).unwrap();
    assert_eq!(hrp, "va1n");
}

#[test]
fn bit_conversion_round_trips_for_every_length_we_use() {
    for length in [1_usize, 2, 20, 31, 32, 33] {
        let payload = vec![0x9c_u8; length];
        let five = convert_bits(&payload, 8, 5, true).unwrap();
        let eight = convert_bits(&five, 5, 8, false).unwrap();
        assert_eq!(eight, payload, "round trip failed at {length} bytes");
    }
}

#[test]
fn each_rejection_names_its_rule() {
    assert_eq!(decode(&"a".repeat(91)), Err(Bech32Error::TooLong(91)));
    assert_eq!(decode("qyrz8wqd2c9m"), Err(Bech32Error::NoSeparator));
    assert_eq!(decode("1qyrz8wqd2c9m"), Err(Bech32Error::EmptyHrp));
    assert_eq!(decode("y1b0jsk6g"), Err(Bech32Error::BadDataChar('b')));
    assert_eq!(decode("in1muywd"), Err(Bech32Error::DataTooShort(5)));
    assert_eq!(decode("a b1qqqqqq"), Err(Bech32Error::BadHrpChar(b' ')));
    assert_eq!(decode("é1qqqqqqqq"), Err(Bech32Error::BadHrpChar(0xc3)));
    assert_eq!(decode("a1qqqqqqé"), Err(Bech32Error::BadDataChar('é')));
    assert_eq!(decode("A1QQQQQQB"), Err(Bech32Error::BadDataChar('b')));
    assert_eq!(decode("a1qqqqqqqq"), Err(Bech32Error::BadChecksum));
    assert_eq!(encode("van", &[32]), Err(Bech32Error::BadDataChar('?')));
    assert_eq!(encode("van", &[0; 81]), Err(Bech32Error::TooLong(91)));
    assert_eq!(encode("vé", &[0]), Err(Bech32Error::BadHrpChar(0xc3)));
}

#[test]
fn an_empty_payload_is_valid_bech32m() {
    let text = encode("a", &[]).unwrap();
    assert_eq!(text, "a1lqfn3a");
    assert_eq!(decode(&text), Ok(("a".to_owned(), vec![])));
}

#[test]
fn bit_conversion_pads_only_when_asked() {
    assert_eq!(convert_bits(&[0xff], 8, 5, true), Ok(vec![31, 28]));
    assert_eq!(convert_bits(&[0xff], 8, 5, false), Err(Bech32Error::BadPadding));
    assert_eq!(convert_bits(&[31, 28], 5, 8, false), Ok(vec![0xff]));
    assert_eq!(convert_bits(&[31, 31], 5, 8, false), Err(Bech32Error::BadPadding));
    assert_eq!(convert_bits(&[], 8, 5, true), Ok(vec![]));
}
