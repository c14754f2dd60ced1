use bencode::{
    parse, parse_bytes, parse_dict, parse_length, parse_list, parse_number, parse_string, BValue,
    DecodeError, ErrorKind,
};

fn err(kind: ErrorKind, offset: usize) -> DecodeError {
    DecodeError { kind, offset }
}

#[test]
fn test_parse_number() {
    assert_eq!(parse(b"i-1337e"), Ok((&b""[..], BValue::BNumber(-1337))));
}

#[test]
fn test_parse_string() {
    assert_eq!(parse(b"4:spam"), Ok((&b""[..], BValue::BBytes("spam".into()))));
}

#[test]
fn test_parse_list() {
    assert_eq!(
        parse(b"l4:spami42ee"),
        Ok((&b""[..], BValue::BList(vec![BValue::BBytes("spam".into()), BValue::BNumber(42)])))
    );
}

#[test]
fn test_parse_dict() {
    let dict = vec![
        ("bar".to_string(), BValue::BBytes("spam".into())),
        ("foo".to_string(), BValue::BNumber(42)),
    ];
    assert_eq!(parse(b"d3:bar4:spam3:fooi42ee"), Ok((&b""[..], BValue::BDict(dict))));
}

#[test]
fn integer_values() {
    assert_eq!(parse(b"i0e"), Ok((&b""[..], BValue::BNumber(0))));
    assert_eq!(parse(b"i42e"), Ok((&b""[..], BValue::BNumber(42))));
    assert_eq!(parse(b"i-42e"), Ok((&b""[..], BValue::BNumber(-42))));
    assert_eq!(parse(b"i007e"), Ok((&b""[..], BValue::BNumber(7))));
}

#[test]
fn negative_zero_is_zero() {
    assert_eq!(parse(b"i-0e"), Ok((&b""[..], BValue::BNumber(0))));
}

#[test]
fn integer_limits() {
    assert_eq!(parse(b"i9223372036854775807e"), Ok((&b""[..], BValue::BNumber(i64::MAX))));
    assert_eq!(parse(b"i-9223372036854775808e"), Ok((&b""[..], BValue::BNumber(i64::MIN))));
}

#[test]
fn integer_overflow() {
    assert_eq!(parse(b"i9223372036854775808e"), Err(err(ErrorKind::IntegerOverflow, 0)));
    assert_eq!(parse(b"i-9223372036854775809e"), Err(err(ErrorKind::IntegerOverflow, 0)));
    assert_eq!(parse(b"i99999999999999999999999e"), Err(err(ErrorKind::IntegerOverflow, 0)));
}

#[test]
fn integer_syntax_errors() {
    assert_eq!(parse(b"ie"), Err(err(ErrorKind::Syntax, 1)));
    assert_eq!(parse(b"i-e"), Err(err(ErrorKind::Syntax, 2)));
    assert_eq!(parse(b"i+1e"), Err(err(ErrorKind::Syntax, 1)));
    assert_eq!(parse(b"i12"), Err(err(ErrorKind::Syntax, 3)));
    assert_eq!(parse(b"i12x"), Err(err(ErrorKind::Syntax, 3)));
}

#[test]
fn number_rule_alone() {
    assert_eq!(parse_number(b"i5ei6e"), Ok((&b"i6e"[..], 5)));
    assert_eq!(parse_number(b"5:abc"), Err(err(ErrorKind::Syntax, 0)));
}

#[test]
fn bytes_keep_the_rest() {
    assert_eq!(parse(b"3:abcxyz"), Ok((&b"xyz"[..], BValue::BBytes(b"abc".to_vec()))));
    assert_eq!(parse(b"0:"), Ok((&b""[..], BValue::BBytes(Vec::new()))));
    assert_eq!(parse(b"0:rest"), Ok((&b"rest"[..], BValue::BBytes(Vec::new()))));
}

#[test]
fn bytes_are_binary() {
    let input: &[u8] = &[b'2', b':', 0xff, 0x00, b'!'];
    assert_eq!(parse(input), Ok((&b"!"[..], BValue::BBytes(vec![0xff, 0x00]))));
}

#[test]
fn truncated_bytes() {
    assert_eq!(parse(b"5:ab"), Err(err(ErrorKind::TruncatedInput, 2)));
    assert_eq!(parse(b"99999999999999999999999:ab"), Err(err(ErrorKind::TruncatedInput, 24)));
}

#[test]
fn length_token() {
    assert_eq!(parse_length(b"12:x"), Ok((&b"x"[..], 12)));
    assert_eq!(parse_length(b"007:"), Ok((&b""[..], 7)));
    assert_eq!(parse_length(b":"), Err(err(ErrorKind::Syntax, 0)));
    assert_eq!(parse_length(b"12"), Err(err(ErrorKind::Syntax, 2)));
    assert_eq!(parse_length(b"12x"), Err(err(ErrorKind::Syntax, 2)));
    assert_eq!(parse_length(b"99999999999999999999999:"), Err(err(ErrorKind::IntegerOverflow, 0)));
}

#[test]
fn bytes_rule_alone() {
    assert_eq!(parse_bytes(b"2:hi!"), Ok((&b"!"[..], b"hi".to_vec())));
    assert_eq!(parse_bytes(b"i1e"), Err(err(ErrorKind::Syntax, 0)));
}

#[test]
fn string_rule_decodes_utf8() {
    let input: &[u8] = &[b'2', b':', 0xc3, 0xa9, b'e'];
    assert_eq!(parse_string(input), Ok((&b"e"[..], "\u{e9}".to_string())));
    let bad: &[u8] = &[b'1', b':', 0xff];
    assert_eq!(parse_string(bad), Err(err(ErrorKind::InvalidKeyEncoding, 0)));
}

#[test]
fn nested_list() {
    assert_eq!(
        parse(b"ll1:aei1eetail"),
        Ok((
            &b"tail"[..],
            BValue::BList(vec![
                BValue::BList(vec![BValue::BBytes(b"a".to_vec())]),
                BValue::BNumber(1),
            ])
        ))
    );
}

#[test]
fn list_rule_alone() {
    assert_eq!(
        parse_list(b"l4:spami42ee"),
        Ok((&b""[..], vec![BValue::BBytes("spam".into()), BValue::BNumber(42)]))
    );
    assert_eq!(parse_list(b"i1e"), Err(err(ErrorKind::Syntax, 0)));
}

#[test]
fn list_errors() {
    assert_eq!(parse(b"li1e"), Err(err(ErrorKind::Syntax, 4)));
    assert_eq!(parse(b"li1exe"), Err(err(ErrorKind::NoMatchingRule, 4)));
    assert_eq!(parse(b"l5:abe"), Err(err(ErrorKind::TruncatedInput, 3)));
}

#[test]
fn duplicate_keys_last_wins() {
    assert_eq!(
        parse(b"d3:fooi1e3:fooi2ee"),
        Ok((&b""[..], BValue::BDict(vec![("foo".to_string(), BValue::BNumber(2))])))
    );
}

#[test]
fn duplicate_key_keeps_first_position() {
    assert_eq!(
        parse_dict(b"d1:bi1e1:ai2e1:bi3ee"),
        Ok((
            &b""[..],
            vec![("b".to_string(), BValue::BNumber(3)), ("a".to_string(), BValue::BNumber(2))]
        ))
    );
}

#[test]
fn dict_missing_end_fails() {
    assert_eq!(parse(b"d3:bar4:spam3:fooi42e"), Err(err(ErrorKind::Syntax, 21)));
}

#[test]
fn dict_errors() {
    assert_eq!(parse(b"di1ei2ee"), Err(err(ErrorKind::Syntax, 1)));
    let bad_key: &[u8] = &[b'd', b'1', b':', 0xff, b'i', b'1', b'e', b'e'];
    assert_eq!(parse(bad_key), Err(err(ErrorKind::InvalidKeyEncoding, 1)));
    assert_eq!(parse(b"d3:foo"), Err(err(ErrorKind::NoMatchingRule, 6)));
}

#[test]
fn utf8_keys_are_decoded() {
    let input: &[u8] = &[b'd', b'2', b':', 0xc3, 0xa9, b'i', b'1', b'e', b'e'];
    assert_eq!(
        parse(input),
        Ok((&b""[..], BValue::BDict(vec![("\u{e9}".to_string(), BValue::BNumber(1))])))
    );
}

#[test]
fn empty_collections_are_rejected() {
    assert_eq!(parse(b"le"), Err(err(ErrorKind::NoMatchingRule, 1)));
    assert_eq!(parse(b"de"), Err(err(ErrorKind::Syntax, 1)));
}

#[test]
fn unmatched_leading_byte() {
    assert_eq!(parse(b""), Err(err(ErrorKind::NoMatchingRule, 0)));
    assert_eq!(parse(b"x"), Err(err(ErrorKind::NoMatchingRule, 0)));
    assert_eq!(parse(b"e"), Err(err(ErrorKind::NoMatchingRule, 0)));
}

#[test]
fn round_trip_of_a_built_tree() {
    let tree = BValue::BList(vec![
        BValue::BNumber(-7),
        BValue::BDict(vec![
            ("k".to_string(), BValue::BBytes(b"v".to_vec())),
            ("n".to_string(), BValue::BList(vec![BValue::BNumber(0)])),
        ]),
    ]);
    assert_eq!(parse(b"li-7ed1:k1:v1:nli0eeeeZ"), Ok((&b"Z"[..], tree)));
}
