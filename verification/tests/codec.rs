use vanargand::hash::Digest;
use vanargand::id::AccountId;
use vanargand::sorted_map::SortedMap;
use vanargand::codec::{CodecError, Decode, Decoder, Encode, Encoder, MAX_SEQ_LEN, MAX_VARINT_BYTES};

fn varint(value: u64) -> Vec<u8> {
    let mut encoder = Encoder::new();
    encoder.write_varint(value);
    encoder.finish()
}

fn read_varint(bytes: &[u8]) -> Result<u64, CodecError> {
    let mut decoder = Decoder::new(bytes).unwrap();
    let value = decoder.read_varint()?;
    decoder.finish()?;
    Ok(value)
}

#[test]
fn varint_matches_the_specification_table() {
    assert_eq!(varint(0), vec![0x00]);
    assert_eq!(varint(1), vec![0x01]);
    assert_eq!(varint(127), vec![0x7f]);
    assert_eq!(varint(128), vec![0x80, 0x01]);
    assert_eq!(varint(300), vec![0xac, 0x02]);
    assert_eq!(varint(u64::from(u32::MAX)), vec![0xff, 0xff, 0xff, 0xff, 0x0f]);
    assert_eq!(
        varint(u64::MAX),
        vec![0xff, 0xff, 0xff, 0xff, 0xff, 0xff, 0xff, 0xff, 0xff, 0x01]
    );
}

#[test]
fn varint_round_trips_over_a_wide_range() {
    let mut value: u64 = 0;
    loop {
        assert_eq!(read_varint(&varint(value)), Ok(value), "failed at {value}");
        let Some(next) = value.checked_mul(3).and_then(|v| v.checked_add(1)) else { break };
        value = next;
    }
    assert_eq!(read_varint(&varint(u64::MAX)), Ok(u64::MAX));
}

#[test]
fn non_canonical_varints_are_rejected() {
    assert_eq!(read_varint(&[0x81, 0x00]), Err(CodecError::NonCanonicalVarint));
    assert_eq!(read_varint(&[0x80, 0x00]), Err(CodecError::NonCanonicalVarint));
    assert_eq!(read_varint(&[0xff, 0x80, 0x00]), Err(CodecError::NonCanonicalVarint));
    assert_eq!(
        read_varint(&[0x80, 0x80, 0x80, 0x80, 0x80, 0x80, 0x80, 0x80, 0x80, 0x00]),
        Err(CodecError::NonCanonicalVarint)
    );
    assert_eq!(read_varint(&[0x00]), Ok(0));
}

#[test]
fn overwide_varints_are_rejected() {
    let too_many = vec![0x80_u8; MAX_VARINT_BYTES + 1];
    assert!(matches!(
        read_varint(&too_many),
        Err(CodecError::VarintTooWide | CodecError::UnexpectedEnd { .. })
    ));
}

#[test]
fn varints_that_overflow_their_target_are_rejected() {
    let mut encoder = Encoder::new();
    encoder.write_varint(1_u64 << 32);
    let bytes = encoder.finish();
    let mut decoder = Decoder::new(&bytes).unwrap();
    assert_eq!(decoder.read_varint_u32(), Err(CodecError::VarintOverflow { target: "u32" }));
}

#[test]
fn a_truncated_varint_is_an_error_not_a_value() {
    assert!(matches!(read_varint(&[0x80]), Err(CodecError::UnexpectedEnd { .. })));
    assert!(matches!(read_varint(&[]), Err(CodecError::UnexpectedEnd { .. })));
}

#[test]
fn bools_are_exactly_two_bytes() {
    for byte in 0_u8..=255 {
        let buf = [byte];
        let mut decoder = Decoder::new(&buf).unwrap();
        match byte {
            0 => assert_eq!(decoder.read_bool(), Ok(false)),
            1 => assert_eq!(decoder.read_bool(), Ok(true)),
            other => {
                assert_eq!(decoder.read_bool(), Err(CodecError::NonCanonicalBool(other)));
            }
        }
    }
}

#[test]
fn trailing_bytes_are_rejected() {
    let mut bytes = varint(1);
    bytes.push(0x00);
    assert_eq!(read_varint(&bytes), Err(CodecError::TrailingBytes(1)));
}

#[test]
fn a_declared_length_beyond_the_input_does_not_allocate() {
    let mut encoder = Encoder::new();
    encoder.write_varint(1_000_000);
    let bytes = encoder.finish();
    let mut decoder = Decoder::new(&bytes).unwrap();
    assert!(matches!(decoder.read_bytes(), Err(CodecError::LengthBeyondInput { .. })));
}

#[test]
fn an_oversized_sequence_count_is_rejected_before_allocating() {
    let mut encoder = Encoder::new();
    encoder.write_varint(u64::try_from(MAX_SEQ_LEN).unwrap() + 1);
    let bytes = encoder.finish();
    let mut decoder = Decoder::new(&bytes).unwrap();
    assert!(matches!(decoder.read_seq::<u64>(), Err(CodecError::LimitExceeded { .. })));
}

#[test]
fn byte_strings_round_trip() {
    let cases: Vec<Vec<u8>> = vec![vec![], vec![0], vec![0xff; 300]];
    for case in cases {
        let encoded = case.to_canonical_bytes();
        assert_eq!(Vec::<u8>::from_canonical_bytes(&encoded), Ok(case));
    }
}

#[test]
fn strings_must_be_utf8() {
    let mut encoder = Encoder::new();
    encoder.write_bytes(&[0xff, 0xfe]);
    let bytes = encoder.finish();
    assert_eq!(String::from_canonical_bytes(&bytes), Err(CodecError::InvalidUtf8));
}

#[test]
fn options_reject_tags_other_than_zero_and_one() {
    for byte in 2_u8..=255 {
        let buf = [byte];
        let mut decoder = Decoder::new(&buf).unwrap();
        assert_eq!(decoder.read_option::<u64>(), Err(CodecError::BadOptionTag(byte)));
    }
}

#[test]
fn an_absent_option_is_not_a_present_zero() {
    let mut absent = Encoder::new();
    absent.write_option::<u64>(None);
    let mut present_zero = Encoder::new();
    present_zero.write_option(Some(&0_u64));
    assert_ne!(absent.finish(), present_zero.finish());
}

#[test]
fn sets_must_be_strictly_ascending() {
    let mut encoder = Encoder::new();
    assert!(encoder.write_set(&[1_u64, 2, 3]).is_ok());

    let mut unsorted = Encoder::new();
    assert_eq!(unsorted.write_set(&[3_u64, 1, 2]).err(), Some(CodecError::UnorderedSet { index: 1 }));

    let mut duplicated = Encoder::new();
    assert_eq!(duplicated.write_set(&[1_u64, 1]).err(), Some(CodecError::UnorderedSet { index: 1 }));
}

#[test]
fn a_decoder_rejects_an_unordered_set() {
    let mut encoder = Encoder::new();
    encoder.write_seq(&[3_u64, 1, 2]);
    let bytes = encoder.finish();

    let mut as_seq = Decoder::new(&bytes).unwrap();
    assert_eq!(as_seq.read_seq::<u64>(), Ok(vec![3, 1, 2]));

    let mut as_set = Decoder::new(&bytes).unwrap();
    assert_eq!(as_set.read_set::<u64>(), Err(CodecError::UnorderedSet { index: 1 }));
}

#[test]
fn a_decoder_rejects_a_duplicated_set_element() {
    let mut encoder = Encoder::new();
    encoder.write_seq(&[7_u64, 7]);
    let bytes = encoder.finish();
    let mut decoder = Decoder::new(&bytes).unwrap();
    assert_eq!(decoder.read_set::<u64>(), Err(CodecError::UnorderedSet { index: 1 }));
}

#[test]
fn sets_round_trip_when_sorted() {
    let items = vec![1_u64, 2, 300, u64::MAX];
    let mut encoder = Encoder::new();
    encoder.write_set(&items).unwrap();
    let bytes = encoder.finish();
    let mut decoder = Decoder::new(&bytes).unwrap();
    assert_eq!(decoder.read_set::<u64>(), Ok(items));
}

#[test]
fn set_ordering_is_by_encoded_bytes_not_by_value() {
    let mut numeric = Encoder::new();
    assert_eq!(numeric.write_set(&[255_u64, 256]).err(), Some(CodecError::UnorderedSet { index: 1 }));

    let mut by_bytes = Encoder::new();
    assert!(by_bytes.write_set(&[256_u64, 255]).is_ok());
}

#[test]
fn fixed_arrays_round_trip() {
    let mut encoder = Encoder::new();
    encoder.write_raw(&[0xaa; 32]);
    let bytes = encoder.finish();
    assert_eq!(bytes.len(), 32, "a fixed array must not carry a length prefix");
    let mut decoder = Decoder::new(&bytes).unwrap();
    assert_eq!(decoder.read_array::<32>(), Ok([0xaa; 32]));
    assert_eq!(decoder.finish(), Ok(()));
}

fn deep(decoder: &mut Decoder<'_>, remaining: u32) -> Result<(), CodecError> {
    if remaining == 0 {
        return Ok(());
    }
    decoder.nested(|inner| deep(inner, remaining - 1))
}

#[test]
fn nesting_is_bounded() {
    let mut decoder = Decoder::new(&[0x00]).unwrap();
    assert_eq!(deep(&mut decoder, 32), Ok(()));
    assert_eq!(deep(&mut decoder, 33), Err(CodecError::TooDeep));
}

#[test]
fn u16_is_fixed_width_little_endian() {
    let mut encoder = Encoder::new();
    encoder.write_u16(0x0102);
    let bytes = encoder.finish();
    assert_eq!(bytes, vec![0x02, 0x01]);
    let mut decoder = Decoder::new(&bytes).unwrap();
    assert_eq!(decoder.read_u16(), Ok(0x0102));
}

#[test]
fn a_u16_value_round_trips_through_its_codec() {
    for value in [0_u16, 1, 255, 256, 0x0102, u16::MAX] {
        let bytes = value.to_canonical_bytes();
        assert_eq!(bytes, vec![(value % 256) as u8, (value / 256) as u8]);
        assert_eq!(u16::from_canonical_bytes(&bytes), Ok(value));
    }
}

#[test]
fn the_bytes_written_are_those_the_writer_was_asked_for() {
    let mut encoder = Encoder::with_capacity(8);
    encoder.write_u8(7);
    encoder.write_bool(true);
    encoder.write_str("hé");
    assert_eq!(encoder.as_slice(), &[7, 1, 3, b'h', 0xc3, 0xa9]);
    let bytes = encoder.finish();
    let mut decoder = Decoder::new(&bytes).unwrap();
    assert_eq!(decoder.read_u8(), Ok(7));
    assert_eq!(decoder.remaining(), 5);
    assert_eq!(decoder.position(), 1);
    assert_eq!(decoder.read_bool(), Ok(true));
    assert_eq!(decoder.read_str(), Ok("hé"));
    assert_eq!(decoder.finish(), Ok(()));
}

#[test]
fn an_ordered_set_is_written_as_a_canonical_set() {
    let mut set: SortedMap<AccountId, ()> = SortedMap::new();
    for byte in [9_u8, 3, 7] {
        set.insert(AccountId::from_hash(Digest::from_bytes([byte; 32])), ());
    }
    let mut encoder = Encoder::new();
    encoder.write_ordered_set(&set);
    let written = encoder.finish();

    let mut expected = vec![3_u8];
    for byte in [3_u8, 7, 9] {
        expected.extend_from_slice(&[byte; 32]);
    }
    assert_eq!(written, expected);

    let sorted: Vec<AccountId> = set.as_slice().iter().map(|(id, _)| *id).collect();
    let mut through_set = Encoder::new();
    through_set.write_set(&sorted).expect("already canonical");
    assert_eq!(through_set.finish(), written);

    let mut decoder = Decoder::new(&written).unwrap();
    let back: Vec<AccountId> = decoder.read_set().expect("a canonical set");
    assert_eq!(back, sorted);
}

#[test]
fn an_empty_ordered_set_is_a_zero_count() {
    let set: SortedMap<AccountId, ()> = SortedMap::new();
    let mut encoder = Encoder::new();
    encoder.write_ordered_set(&set);
    assert_eq!(encoder.finish(), vec![0_u8]);
}

#[test]
fn hashes_are_thirty_two_raw_bytes() {
    let hash = Digest::from_bytes([0x3c; 32]);
    let bytes = hash.to_canonical_bytes();
    assert_eq!(bytes.len(), 32);
    assert_eq!(Digest::from_canonical_bytes(&bytes), Ok(hash));
}
