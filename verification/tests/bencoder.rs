use bencode::bencode;
use bencode::BDecoder;
use bencode::BValue;

#[test]
fn bencoder_test_parse_integer() {
    let bencoded = "i128e".to_string().into_bytes();
    assert_eq!(bencoded, bencode(BValue::Integer(128)));
}

#[test]
fn bencoder_test_parse_string() {
    let bencoded = "4:toto".to_string().into_bytes();
    assert_eq!(bencoded, bencode(BValue::String("toto".to_string().into_bytes())));

    let bencoded1 = "0:".to_string().into_bytes();
    assert_eq!(bencoded1, bencode(BValue::String("".to_string().into_bytes())));
}

#[test]
fn bencoder_test_parse_list() {
    let bencoded = "l4:totoi128ee".to_string().into_bytes();

    let mut res = Vec::<BValue>::new();
    res.push(BValue::String("toto".to_string().into_bytes()));
    res.push(BValue::Integer(128));
    assert_eq!(bencoded, bencode(BValue::List(res)));
}

#[test]
fn bencoder_test_parse_dictionary() {
    let mut map = Vec::<(String, BValue)>::new();

    let mut res = Vec::<BValue>::new();
    res.push(BValue::String("toto".to_string().into_bytes()));
    res.push(BValue::Integer(128));

    map.push(("papa".to_string(), BValue::List(res)));
    map.push(("c".to_string(), BValue::Integer(25)));

    let bencoded = bencode(BValue::Dictionary(map));
    let mut decoder = BDecoder::new(&bencoded);

    let mut map1 = Vec::<(String, BValue)>::new();

    let mut res1 = Vec::<BValue>::new();
    res1.push(BValue::String("toto".to_string().into_bytes()));
    res1.push(BValue::Integer(128));

    map1.push(("papa".to_string(), BValue::List(res1)));
    map1.push(("c".to_string(), BValue::Integer(25)));

    assert_eq!(decoder.parse(), Ok(BValue::Dictionary(map1)));
}
