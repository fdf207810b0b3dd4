use vanargand::codec::{CodecError, Decode, Encode, Encoder};
use vanargand::name::{Name, NameError, MAX_NAME_LEN};

#[test]
fn ordinary_names_are_accepted() {
    for text in ["marie", "a", "cafe-du-port", "x1", "0", "z9-z"] {
        assert!(Name::new(text).is_ok(), "rejected: {text}");
    }
}

#[test]
fn the_grammar_is_enforced_rather_than_repaired() {
    assert_eq!(Name::new("Marie"), Err(NameError::BadCharacter('M')));
    assert_eq!(Name::new("marie!"), Err(NameError::BadCharacter('!')));
    assert_eq!(Name::new("ma rie"), Err(NameError::BadCharacter(' ')));
    assert_eq!(Name::new("marié"), Err(NameError::BadCharacter('é')));
    assert_eq!(Name::new("маrie"), Err(NameError::BadCharacter('м')));
    assert_eq!(Name::new("marie_x"), Err(NameError::BadCharacter('_')));
}

#[test]
fn a_cyrillic_lookalike_cannot_impersonate_a_latin_name() {
    assert!(Name::new("marie").is_ok());
    assert!(Name::new("\u{43c}arie").is_err(), "Cyrillic 'м' was accepted");
    assert!(Name::new("mar\u{456}e").is_err(), "Cyrillic 'і' was accepted");
}

#[test]
fn hyphens_are_constrained() {
    assert_eq!(Name::new("-marie"), Err(NameError::EdgeHyphen));
    assert_eq!(Name::new("marie-"), Err(NameError::EdgeHyphen));
    assert_eq!(Name::new("ma--rie"), Err(NameError::DoubleHyphen));
    assert!(Name::new("ma-rie").is_ok());
    assert_eq!(Name::new("-"), Err(NameError::EdgeHyphen));
}

#[test]
fn lengths_are_bounded() {
    assert_eq!(Name::new(""), Err(NameError::BadLength(0)));
    assert!(Name::new(&"a".repeat(MAX_NAME_LEN)).is_ok());
    assert_eq!(Name::new(&"a".repeat(MAX_NAME_LEN + 1)), Err(NameError::BadLength(MAX_NAME_LEN + 1)));
}

#[test]
fn premium_names_are_the_short_ones() {
    assert!(Name::new("ab").unwrap().is_premium());
    assert!(Name::new("abcde").unwrap().is_premium());
    assert!(!Name::new("abcdef").unwrap().is_premium());
}

#[test]
fn the_documented_contradiction_is_pinned_rather_than_papered_over() {
    assert!(
        Name::new("marie").unwrap().is_premium(),
        "if this now fails, the premium threshold was changed"
    );
}

#[test]
fn names_round_trip() {
    let name = Name::new("cafe-du-port").unwrap();
    assert_eq!(Name::from_canonical_bytes(&name.to_canonical_bytes()), Ok(name));
}

#[test]
fn an_invalid_name_on_the_wire_is_rejected() {
    let mut encoder = Encoder::new();
    encoder.write_str("Marie");
    assert_eq!(
        Name::from_canonical_bytes(&encoder.finish()),
        Err(CodecError::Invalid { reason: "not a valid name" })
    );
}

#[test]
fn a_name_keeps_its_text() {
    let name = Name::new("cafe-du-port").unwrap();
    assert_eq!(name.as_str(), "cafe-du-port");
    assert_eq!(name.clone(), name);
    assert_eq!(Name::new("été"), Err(NameError::BadCharacter('é')));
    assert_eq!(Name::new(&"é".repeat(17)), Err(NameError::BadLength(34)));
}
