use bencode::{BenDict, BenObject, ByteString, DecodeError, ToByteString};

fn decode(input: &[u8]) -> Result<BenObject, DecodeError> {
    BenObject::decode(&mut input.iter().copied())
}

fn string(text: &str) -> BenObject {
    BenObject::S(text.to_bytestring())
}

#[test]
fn integer_round_trip() {
    let samples: [i64; 11] = [
        0,
        1,
        -1,
        9,
        10,
        42,
        -42,
        1234567890,
        -987654321012,
        i64::MAX,
        i64::MIN,
    ];
    for n in samples {
        let rendered = format!("i{}e", n);
        assert_eq!(decode(rendered.as_bytes()), Ok(BenObject::I(n)));
    }
}

#[test]
fn string_round_trip_keeps_every_byte() {
    let samples: Vec<Vec<u8>> = vec![
        vec![],
        vec![0],
        vec![0, 0, 0],
        b"spam".to_vec(),
        vec![0xff, 0xfe, 0x00, 0x80, b'e', b':', b'1'],
        (0..=255u8).collect(),
        vec![b'x'; 1000],
    ];
    for bytes in samples {
        let mut rendered = format!("{}:", bytes.len()).into_bytes();
        rendered.extend_from_slice(&bytes);
        assert_eq!(decode(&rendered), Ok(BenObject::S(ByteString(bytes))));
    }
}

#[test]
fn empty_list_and_empty_dict() {
    assert_eq!(decode(b"le"), Ok(BenObject::L(vec![])));
    assert_eq!(decode(b"de"), Ok(BenObject::D(BenDict::new())));
}

#[test]
fn list_of_two_strings() {
    assert_eq!(
        decode(b"l4:spam4:eggse"),
        Ok(BenObject::L(vec![string("spam"), string("eggs")]))
    );
}

#[test]
fn list_keeps_the_order_of_its_items() {
    let forward = decode(b"l4:spam4:eggse").unwrap();
    let backward = decode(b"l4:eggs4:spame").unwrap();
    assert_ne!(forward, backward);
    let items = forward.as_list().unwrap();
    assert_eq!(items.len(), 2);
    assert_eq!(items[0], string("spam"));
    assert_eq!(items[1], string("eggs"));
}

#[test]
fn dict_of_two_entries() {
    let object = decode(b"d3:cow3:moo4:spam4:eggse").unwrap();
    let dict = object.as_dict().unwrap();
    assert_eq!(dict.len(), 2);
    assert_eq!(dict.get(&"cow".to_bytestring()), Some(&string("moo")));
    assert_eq!(dict.get(&"spam".to_bytestring()), Some(&string("eggs")));
    assert_eq!(dict.get(&"eggs".to_bytestring()), None);

    let mut expected = BenDict::new();
    expected.insert("spam".to_bytestring(), string("eggs"));
    expected.insert("cow".to_bytestring(), string("moo"));
    assert_eq!(object, BenObject::D(expected));
}

#[test]
fn list_nested_in_dict() {
    let mut expected = BenDict::new();
    expected.insert(
        "list".to_bytestring(),
        BenObject::L(vec![string("a"), string("b")]),
    );
    assert_eq!(decode(b"d4:listl1:a1:bee"), Ok(BenObject::D(expected)));
}

#[test]
fn deep_nesting() {
    let object = decode(b"lld1:kli-7eeeee").unwrap();
    let outer = object.as_list().unwrap();
    let inner = outer[0].as_list().unwrap();
    let dict = inner[0].as_dict().unwrap();
    let value = dict.get(&"k".to_bytestring()).unwrap();
    assert_eq!(value, &BenObject::L(vec![BenObject::I(-7)]));
}

#[test]
fn truncated_string_is_a_length_mismatch() {
    assert_eq!(decode(b"5:ab"), Err(DecodeError::LengthMismatch));
}

#[test]
fn string_needs_all_its_bytes() {
    assert_eq!(decode(b"4:spa"), Err(DecodeError::LengthMismatch));
    assert_eq!(decode(b"1:"), Err(DecodeError::LengthMismatch));
    assert_eq!(decode(b"4:spam"), Ok(string("spam")));
}

#[test]
fn length_beyond_64_bits_is_a_length_mismatch() {
    assert_eq!(
        decode(b"18446744073709551616:abc"),
        Err(DecodeError::LengthMismatch)
    );
    assert_eq!(
        decode(b"99999999999999999999999999999999:abc"),
        Err(DecodeError::LengthMismatch)
    );
    assert_eq!(
        decode(b"18446744073709551615:abc"),
        Err(DecodeError::LengthMismatch)
    );
}

#[test]
fn missing_terminators() {
    assert_eq!(decode(b"i42"), Err(DecodeError::MalformedInteger));
    assert_eq!(decode(b"l1:ae"), Ok(BenObject::L(vec![string("a")])));
    // A list that ends without its `e` fails in the item that the decoder
    // goes on to read: at the end of the input, no object is found.
    assert_eq!(decode(b"l1:a"), Err(DecodeError::ObjectNotFound));
}

#[test]
fn unterminated_containers_report_the_missing_object() {
    assert_eq!(decode(b"l"), Err(DecodeError::ObjectNotFound));
    assert_eq!(decode(b"d"), Err(DecodeError::ObjectNotFound));
    assert_eq!(decode(b"d3:foo"), Err(DecodeError::ObjectNotFound));
    assert_eq!(decode(b"d3:fooi1e"), Err(DecodeError::ObjectNotFound));
    assert_eq!(decode(b"li1ex"), Err(DecodeError::UnexpectedByte));
    assert_eq!(decode(b"d1:ai1ex"), Err(DecodeError::UnexpectedByte));
}

#[test]
fn integer_with_a_wrong_terminator() {
    assert_eq!(decode(b"i42x"), Err(DecodeError::MalformedInteger));
    assert_eq!(decode(b"i4-2e"), Err(DecodeError::MalformedInteger));
    assert_eq!(decode(b"i--1e"), Err(DecodeError::MalformedInteger));
    assert_eq!(decode(b"i"), Err(DecodeError::MalformedInteger));
}

#[test]
fn duplicate_key_keeps_the_last_value() {
    let object = decode(b"d1:ai1e1:ai2ee").unwrap();
    let dict = object.as_dict().unwrap();
    assert_eq!(dict.len(), 1);
    assert_eq!(dict.get(&"a".to_bytestring()), Some(&BenObject::I(2)));

    let mut expected = BenDict::new();
    expected.insert("a".to_bytestring(), BenObject::I(2));
    assert_eq!(object, BenObject::D(expected));
}

#[test]
fn integer_without_digits_is_zero() {
    assert_eq!(decode(b"ie"), Ok(BenObject::I(0)));
    assert_eq!(decode(b"i-e"), Ok(BenObject::I(0)));
    assert_eq!(decode(b"i-0e"), Ok(BenObject::I(0)));
}

#[test]
fn integer_with_leading_zeros() {
    assert_eq!(decode(b"i007e"), Ok(BenObject::I(7)));
    assert_eq!(decode(b"i-010e"), Ok(BenObject::I(-10)));
    assert_eq!(
        decode(b"i000000000000000000000000000009223372036854775807e"),
        Ok(BenObject::I(i64::MAX))
    );
}

#[test]
fn integer_at_the_edges_of_the_range() {
    assert_eq!(decode(b"i9223372036854775807e"), Ok(BenObject::I(i64::MAX)));
    assert_eq!(
        decode(b"i9223372036854775808e"),
        Err(DecodeError::IntegerOverflow)
    );
    assert_eq!(
        decode(b"i-9223372036854775808e"),
        Ok(BenObject::I(i64::MIN))
    );
    assert_eq!(
        decode(b"i-9223372036854775809e"),
        Err(DecodeError::IntegerOverflow)
    );
    assert_eq!(
        decode(b"i18446744073709551615e"),
        Err(DecodeError::IntegerOverflow)
    );
    assert_eq!(
        decode(b"i18446744073709551616e"),
        Err(DecodeError::IntegerOverflow)
    );
    assert_eq!(
        decode(b"i-340282366920938463463374607431768211456e"),
        Err(DecodeError::IntegerOverflow)
    );
}

#[test]
fn missing_terminator_comes_before_the_range() {
    assert_eq!(
        decode(b"i99999999999999999999999999"),
        Err(DecodeError::MalformedInteger)
    );
    assert_eq!(
        decode(b"i99999999999999999999999999x"),
        Err(DecodeError::MalformedInteger)
    );
}

#[test]
fn empty_input_holds_no_object() {
    assert_eq!(decode(b""), Err(DecodeError::ObjectNotFound));
}

#[test]
fn unexpected_first_byte() {
    assert_eq!(decode(b"x"), Err(DecodeError::UnexpectedByte));
    assert_eq!(decode(b"e"), Err(DecodeError::UnexpectedByte));
    assert_eq!(decode(b"-1"), Err(DecodeError::UnexpectedByte));
    assert_eq!(decode(b":"), Err(DecodeError::UnexpectedByte));
    assert_eq!(decode(b" i1e"), Err(DecodeError::UnexpectedByte));
    assert_eq!(decode(b"lxe"), Err(DecodeError::UnexpectedByte));
}

#[test]
fn string_without_colon_is_malformed() {
    assert_eq!(decode(b"4spam"), Err(DecodeError::MalformedString));
    assert_eq!(decode(b"4"), Err(DecodeError::MalformedString));
    assert_eq!(decode(b"12e"), Err(DecodeError::MalformedString));
}

#[test]
fn empty_string() {
    assert_eq!(decode(b"0:"), Ok(BenObject::S(ByteString(vec![]))));
    assert_eq!(decode(b"000:"), Ok(BenObject::S(ByteString(vec![]))));
}

#[test]
fn string_bytes_are_not_interpreted() {
    assert_eq!(decode(b"3:ie:"), Ok(string("ie:")));
    assert_eq!(decode(b"2:le"), Ok(string("le")));
    assert_eq!(
        decode(&[b'2', b':', 0xc3, 0x28]),
        Ok(BenObject::S(ByteString(vec![0xc3, 0x28])))
    );
}

#[test]
fn dict_key_must_be_a_string() {
    assert_eq!(decode(b"di1e3:fooe"), Err(DecodeError::InvalidDictKey));
    assert_eq!(decode(b"dle3:fooe"), Err(DecodeError::InvalidDictKey));
    assert_eq!(decode(b"ddei1ee"), Err(DecodeError::InvalidDictKey));
}

#[test]
fn error_in_a_dict_key_is_reported_as_it_is() {
    assert_eq!(decode(b"di1"), Err(DecodeError::MalformedInteger));
    assert_eq!(decode(b"d3:ab"), Err(DecodeError::LengthMismatch));
    assert_eq!(decode(b"dxe"), Err(DecodeError::UnexpectedByte));
}

#[test]
fn error_in_a_dict_value_is_reported_as_it_is() {
    assert_eq!(decode(b"d1:ae"), Err(DecodeError::UnexpectedByte));
    assert_eq!(decode(b"d1:ai5"), Err(DecodeError::MalformedInteger));
    assert_eq!(decode(b"d1:a9:abc"), Err(DecodeError::LengthMismatch));
}

#[test]
fn first_error_in_a_nested_object_comes_out_unchanged() {
    assert_eq!(decode(b"lli1eli2xeee"), Err(DecodeError::MalformedInteger));
    assert_eq!(decode(b"ld1:kl9:abeee"), Err(DecodeError::LengthMismatch));
    assert_eq!(
        decode(b"l4:spami99999999999999999999ee"),
        Err(DecodeError::IntegerOverflow)
    );
}

#[test]
fn binary_keys_are_told_apart_by_their_bytes() {
    let input: Vec<u8> = vec![
        b'd', b'1', b':', 0xff, b'i', b'1', b'e', b'1', b':', 0xfe, b'i', b'2', b'e', b'e',
    ];
    let object = decode(&input).unwrap();
    let dict = object.as_dict().unwrap();
    assert_eq!(dict.len(), 2);
    assert_eq!(dict.get(&ByteString(vec![0xff])), Some(&BenObject::I(1)));
    assert_eq!(dict.get(&ByteString(vec![0xfe])), Some(&BenObject::I(2)));
}

#[test]
fn decoding_stops_behind_the_object() {
    let input = b"i1e4:spamle";
    let mut bytes = input.iter().copied();
    assert_eq!(BenObject::decode(&mut bytes), Ok(BenObject::I(1)));
    assert_eq!(BenObject::decode(&mut bytes), Ok(string("spam")));
    assert_eq!(BenObject::decode(&mut bytes), Ok(BenObject::L(vec![])));
    assert_eq!(
        BenObject::decode(&mut bytes),
        Err(DecodeError::ObjectNotFound)
    );
    assert_eq!(bytes.next(), None);
}

#[test]
fn trailing_bytes_stay_in_the_source() {
    let mut bytes = b"i42etail".iter().copied();
    assert_eq!(BenObject::decode(&mut bytes), Ok(BenObject::I(42)));
    assert_eq!(bytes.collect::<Vec<u8>>(), b"tail".to_vec());

    let mut bytes = b"0:rest".iter().copied();
    assert_eq!(
        BenObject::decode(&mut bytes),
        Ok(BenObject::S(ByteString(vec![])))
    );
    assert_eq!(bytes.collect::<Vec<u8>>(), b"rest".to_vec());
}

#[test]
fn byte_that_was_looked_at_is_gone_after_an_error() {
    let mut bytes = b"i4x56".iter().copied();
    assert_eq!(
        BenObject::decode(&mut bytes),
        Err(DecodeError::MalformedInteger)
    );
    assert_eq!(bytes.collect::<Vec<u8>>(), b"56".to_vec());

    let mut bytes = b"xyz".iter().copied();
    assert_eq!(
        BenObject::decode(&mut bytes),
        Err(DecodeError::UnexpectedByte)
    );
    assert_eq!(bytes.collect::<Vec<u8>>(), b"yz".to_vec());

    let mut bytes = b"3xyz".iter().copied();
    assert_eq!(
        BenObject::decode(&mut bytes),
        Err(DecodeError::MalformedString)
    );
    assert_eq!(bytes.collect::<Vec<u8>>(), b"yz".to_vec());
}

#[test]
fn nothing_is_lost_after_an_error_found_behind_a_consumed_byte() {
    let mut bytes = b"i99999999999999999999etail".iter().copied();
    assert_eq!(
        BenObject::decode(&mut bytes),
        Err(DecodeError::IntegerOverflow)
    );
    assert_eq!(bytes.collect::<Vec<u8>>(), b"tail".to_vec());

    let mut bytes = b"di1e1:ae".iter().copied();
    assert_eq!(
        BenObject::decode(&mut bytes),
        Err(DecodeError::InvalidDictKey)
    );
    assert_eq!(bytes.collect::<Vec<u8>>(), b"1:ae".to_vec());
}

#[test]
fn decodes_from_an_owned_vector() {
    let input: Vec<u8> = b"d4:name5:verus4:sizei3ee".to_vec();
    let mut bytes = input.into_iter();
    let object = BenObject::decode(&mut bytes).unwrap();
    let dict = object.as_dict().unwrap();
    assert_eq!(dict.get(&"name".to_bytestring()), Some(&string("verus")));
    assert_eq!(dict.get(&"size".to_bytestring()), Some(&BenObject::I(3)));
}

#[test]
fn decodes_from_the_bytes_of_a_str() {
    let mut bytes = "li1ei2ei3ee".bytes();
    assert_eq!(
        BenObject::decode(&mut bytes),
        Ok(BenObject::L(vec![
            BenObject::I(1),
            BenObject::I(2),
            BenObject::I(3)
        ]))
    );
}
