use bencode::BDecoder;
use bencode::BValue;

#[test]
fn test_parse_garbage() {
    let to_parse = "garbage".to_string().into_bytes();
    let mut decoder = BDecoder::new(&to_parse);
    assert_eq!(
        decoder.parse(),
        Err("Error: bcode could not be parsed: char not expected ! Precedes : arbage".to_string())
    );
}

#[test]
fn test_parse_eoi() {
    let to_parse = "".to_string().into_bytes();
    let mut decoder = BDecoder::new(&to_parse);
    assert_eq!(
        decoder.parse(),
        Err("Error: bcode could not be parsed: premature end of input ! Precedes : ".to_string())
    );
}

#[test]
fn bdecoder_test_parse_integer() {
    let to_parse = "i128e".to_string().into_bytes();
    let mut decoder = BDecoder::new(&to_parse);
    assert_eq!(decoder.parse(), Ok(BValue::Integer(128)));
}

#[test]
fn bdecoder_test_parse_string() {
    let to_parse = "4:toto".to_string().into_bytes();
    let mut decoder = BDecoder::new(&to_parse);
    assert_eq!(decoder.parse(), Ok(BValue::String("toto".to_string().into_bytes())));

    let to_parse1 = "0:".to_string().into_bytes();
    let mut decoder1 = BDecoder::new(&to_parse1);
    assert_eq!(decoder1.parse(), Ok(BValue::String("".to_string().into_bytes())));
}

#[test]
fn bdecoder_test_parse_list() {
    let to_parse = "l4:totoi128ee".to_string().into_bytes();
    let mut decoder = BDecoder::new(&to_parse);
    let mut res = Vec::<BValue>::new();
    res.push(BValue::String("toto".to_string().into_bytes()));
    res.push(BValue::Integer(128));
    assert_eq!(decoder.parse(), Ok(BValue::List(res)));
}

#[test]
fn bdecoder_test_parse_dictionary() {
    let to_parse = "d4:papal4:totoi128ee1:ci25ee".to_string().into_bytes();
    let mut decoder = BDecoder::new(&to_parse);
    let mut map = Vec::<(String, BValue)>::new();

    let mut res = Vec::<BValue>::new();
    res.push(BValue::String("toto".to_string().into_bytes()));
    res.push(BValue::Integer(128));

    map.push(("papa".to_string(), BValue::List(res)));
    map.push(("c".to_string(), BValue::Integer(25)));

    assert_eq!(decoder.parse(), Ok(BValue::Dictionary(map)));
}
