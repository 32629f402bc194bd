use bencode::BValue;

#[test]
fn test_as_integer() {
    let integer = BValue::Integer(23);
    assert_eq!(Ok(23), integer.as_integer());

    let list = BValue::List(vec![BValue::Integer(23)]);
    assert_eq!(Err("BValue is not an integer".to_string()), list.as_integer());
}

#[test]
fn test_as_bytes() {
    let bytes = BValue::String(vec![116, 111, 116, 111]);
    assert_eq!(Ok(vec![116, 111, 116, 111]), bytes.as_bytes());

    let list = BValue::List(vec![BValue::Integer(23)]);
    assert_eq!(Err("BValue is not a byte string".to_string()), list.as_bytes());
}

#[test]
fn test_as_string() {
    let bytes = BValue::String(vec![116, 111, 116, 111]);
    assert_eq!(Ok("toto".to_string()), bytes.as_string());

    let list = BValue::List(vec![BValue::Integer(23)]);
    assert_eq!(Err("BValue is not a byte string".to_string()), list.as_string());
}

#[test]
fn test_as_list() {
    let mut res = Vec::<BValue>::new();
    res.push(BValue::String("toto".to_string().into_bytes()));
    res.push(BValue::Integer(128));

    let mut res1 = Vec::<BValue>::new();
    res1.push(BValue::String("toto".to_string().into_bytes()));
    res1.push(BValue::Integer(128));
    assert_eq!(Ok(res1), BValue::List(res).as_list());

    let list = BValue::Integer(23);
    assert_eq!(Err("BValue is not a list".to_string()), list.as_list());
}

#[test]
fn test_as_dictionary() {
    let mut map = Vec::<(String, BValue)>::new();

    let mut res = Vec::<BValue>::new();
    res.push(BValue::String("toto".to_string().into_bytes()));
    res.push(BValue::Integer(128));

    map.push(("papa".to_string(), BValue::List(res)));
    map.push(("c".to_string(), BValue::Integer(25)));

    let mut map1 = Vec::<(String, BValue)>::new();

    let mut res1 = Vec::<BValue>::new();
    res1.push(BValue::String("toto".to_string().into_bytes()));
    res1.push(BValue::Integer(128));

    map1.push(("papa".to_string(), BValue::List(res1)));
    map1.push(("c".to_string(), BValue::Integer(25)));
    assert_eq!(Ok(map1), BValue::Dictionary(map).as_dictionary());

    let list = BValue::List(vec![BValue::Integer(23)]);
    assert_eq!(Err("BValue is not a dictionnary".to_string()), list.as_dictionary());
}
