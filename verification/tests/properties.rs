use bencode::bencode;
use bencode::BDecoder;
use bencode::BValue;
use bencode::ParseErrorKind;
use bencode::ParseFault;

fn decode(bytes: &[u8]) -> Result<BValue, String> {
    let owned = bytes.to_vec();
    let mut decoder = BDecoder::new(&owned);
    decoder.parse()
}

#[test]
fn boundary_values() {
    assert_eq!(decode(b"0:"), Ok(BValue::String(Vec::new())));
    assert_eq!(decode(b"i0e"), Ok(BValue::Integer(0)));
    assert_eq!(decode(b"le"), Ok(BValue::List(Vec::new())));
    assert_eq!(decode(b"de"), Ok(BValue::Dictionary(Vec::new())));
}

#[test]
fn negative_integers() {
    assert_eq!(decode(b"i-42e"), Ok(BValue::Integer(-42)));
    assert_eq!(bencode(BValue::Integer(-42)), b"i-42e".to_vec());
    assert_eq!(decode(b"i-0e"), Ok(BValue::Integer(0)));
}

#[test]
fn extreme_integers() {
    assert_eq!(bencode(BValue::Integer(i64::MIN)), b"i-9223372036854775808e".to_vec());
    assert_eq!(decode(b"i-9223372036854775808e"), Ok(BValue::Integer(i64::MIN)));
    assert_eq!(bencode(BValue::Integer(i64::MAX)), b"i9223372036854775807e".to_vec());
    assert_eq!(decode(b"i9223372036854775807e"), Ok(BValue::Integer(i64::MAX)));
    assert_eq!(
        decode(b"i9223372036854775808e"),
        Err("Error: bcode could not be parsed: integer malformed Precedes : ".to_string())
    );
    assert_eq!(
        decode(b"i-9223372036854775809e"),
        Err("Error: bcode could not be parsed: integer malformed Precedes : ".to_string())
    );
}

#[test]
fn error_cases() {
    assert_eq!(
        decode(b""),
        Err("Error: bcode could not be parsed: premature end of input ! Precedes : ".to_string())
    );
    assert_eq!(
        decode(b"garbage"),
        Err("Error: bcode could not be parsed: char not expected ! Precedes : arbage".to_string())
    );
    assert_eq!(
        decode(b"5:abc"),
        Err("Error: bcode could not be parsed: premature end of input ! Precedes : abc".to_string())
    );
}

#[test]
fn error_malformed_integer() {
    assert_eq!(
        decode(b"iabce123"),
        Err("Error: bcode could not be parsed: integer malformed Precedes : 123".to_string())
    );
    assert_eq!(
        decode(b"i+5e"),
        Err("Error: bcode could not be parsed: integer malformed Precedes : ".to_string())
    );
    assert_eq!(
        decode(b"i12"),
        Err("Error: bcode could not be parsed: premature end of input ! Precedes : ".to_string())
    );
}

#[test]
fn error_malformed_length() {
    assert_eq!(
        decode(b"99999999999999999999999:a"),
        Err("Error: bcode could not be parsed: string size malformed Precedes : a".to_string())
    );
    assert_eq!(
        decode(b"4xab"),
        Err("Error: bcode could not be parsed: ':' expected Precedes : ab".to_string())
    );
}

#[test]
fn error_dictionary_keys() {
    assert_eq!(
        decode(b"di1ei2ee"),
        Err(
            "Error: bcode could not be parsed: dictionary key must be a string ! Precedes : i2ee"
                .to_string()
        )
    );
    assert_eq!(
        decode(b"d2:\xff\xfei1ee"),
        Err(
            "Error: bcode could not be parsed: dictionary key is not a valid UTF8 string ! Precedes : i1ee"
                .to_string()
        )
    );
}

#[test]
fn error_window_not_utf8() {
    assert_eq!(decode(b"g\xff"), Err("can not display following bytes".to_string()));
}

#[test]
fn nested_structure_round_trip() {
    let input = b"d4:papal4:totoi128ee1:ci25ee".to_vec();
    let mut decoder = BDecoder::new(&input);
    let decoded = decoder.parse().unwrap();

    let mut expected_map = Vec::<(String, BValue)>::new();
    expected_map.push((
        "papa".to_string(),
        BValue::List(vec![
            BValue::String("toto".to_string().into_bytes()),
            BValue::Integer(128),
        ]),
    ));
    expected_map.push(("c".to_string(), BValue::Integer(25)));
    let expected = BValue::Dictionary(expected_map);
    assert_eq!(decoded, expected);

    let reencoded = bencode(decoded);
    assert_eq!(reencoded, input);
    let mut decoder2 = BDecoder::new(&reencoded);
    assert_eq!(decoder2.parse().unwrap(), expected);
}

#[test]
fn duplicate_keys_last_write_wins() {
    let expected = BValue::Dictionary(vec![("a".to_string(), BValue::Integer(2))]);
    assert_eq!(decode(b"d1:ai1e1:ai2ee"), Ok(expected));
}

#[test]
fn dictionary_keeps_insertion_order() {
    let expected = BValue::Dictionary(vec![
        ("b".to_string(), BValue::Integer(1)),
        ("a".to_string(), BValue::Integer(2)),
    ]);
    assert_eq!(decode(b"d1:bi1e1:ai2ee"), Ok(expected));
}

#[test]
fn trailing_bytes_are_left_unread() {
    let input = b"i128egarbage".to_vec();
    let mut decoder = BDecoder::new(&input);
    assert_eq!(decoder.parse(), Ok(BValue::Integer(128)));
}

#[test]
fn as_string_decodes_multibyte_utf8() {
    let accented = BValue::String(vec![0xC3, 0xA9]);
    assert_eq!(accented.as_string(), Ok("\u{e9}".to_string()));

    let invalid = BValue::String(vec![0xFF]);
    assert_eq!(
        invalid.as_string(),
        Err("BValue byte string is not convertible to utf8".to_string())
    );
}

#[test]
fn multibyte_keys_round_trip() {
    let tree = BValue::Dictionary(vec![(
        "cl\u{e9}".to_string(),
        BValue::String(vec![0, 159, 146, 150]),
    )]);
    let encoded = bencode(tree);
    assert_eq!(encoded, b"d4:cl\xc3\xa94:\x00\x9f\x92\x96e".to_vec());
    let expected = BValue::Dictionary(vec![(
        "cl\u{e9}".to_string(),
        BValue::String(vec![0, 159, 146, 150]),
    )]);
    let mut decoder = BDecoder::new(&encoded);
    assert_eq!(decoder.parse(), Ok(expected));
}

#[test]
fn fault_kinds_follow_the_taxonomy() {
    assert_eq!(ParseFault::UnexpectedEndOfInput.kind(), ParseErrorKind::UnexpectedEndOfInput);
    assert_eq!(ParseFault::UnexpectedCharacter.kind(), ParseErrorKind::UnexpectedCharacter);
    assert_eq!(ParseFault::MalformedInteger.kind(), ParseErrorKind::MalformedInteger);
    assert_eq!(ParseFault::LengthOverflow.kind(), ParseErrorKind::MalformedLength);
    assert_eq!(ParseFault::MissingLengthSeparator.kind(), ParseErrorKind::MalformedLength);
    assert_eq!(ParseFault::KeyNotString.kind(), ParseErrorKind::InvalidDictionaryKey);
    assert_eq!(ParseFault::KeyNotUtf8.kind(), ParseErrorKind::InvalidDictionaryKey);
}

#[test]
fn clone_makes_a_deep_equal_copy() {
    let tree = BValue::Dictionary(vec![
        (
            "k".to_string(),
            BValue::List(vec![BValue::Integer(-7), BValue::String(vec![1, 2, 3])]),
        ),
    ]);
    let copy = tree.clone();
    assert_eq!(copy, tree);
    assert_eq!(bencode(copy), bencode(tree));
}

#[test]
fn leading_zeros_are_accepted() {
    assert_eq!(decode(b"i007e"), Ok(BValue::Integer(7)));
    assert_eq!(decode(b"007:osseuse"), Ok(BValue::String("osseuse".to_string().into_bytes())));
}
