use bencoding::cursor::ByteCursor;
use bencoding::error::DecodeError;
use bencoding::Bencoding;

#[test]
fn string_read() {
    match Bencoding::import(&mut ByteCursor::new("4:spam".as_bytes().to_vec())).unwrap() {
        Bencoding::String(s) => assert_eq!(s, vec![b's', b'p', b'a', b'm']),
        _ => panic!("Wrong type"),
    }
}

#[test]
fn integer_read() {
    match Bencoding::import(&mut ByteCursor::new("i3e".as_bytes().to_vec())).unwrap() {
        Bencoding::Integer(i) => assert_eq!(i, 3),
        _ => panic!("Wrong type"),
    }
}

#[test]
fn negative_integer_read() {
    match Bencoding::import(&mut ByteCursor::new("i-3e".as_bytes().to_vec())).unwrap() {
        Bencoding::Integer(i) => assert_eq!(i, -3),
        _ => panic!("Wrong type"),
    }
}

#[test]
fn list_read() {
    match Bencoding::import(&mut ByteCursor::new("l9:bencoding2:is3:fune".as_bytes().to_vec()))
        .unwrap()
    {
        Bencoding::List(l) => {
            let mut dec_vec = Vec::new();
            for element in l {
                match element {
                    Bencoding::String(s) => dec_vec.push(s),
                    _ => panic!("wrong interior type"),
                }
            }
            assert_eq!(
                dec_vec,
                vec![
                    vec![b'b', b'e', b'n', b'c', b'o', b'd', b'i', b'n', b'g'],
                    vec![b'i', b's'],
                    vec![b'f', b'u', b'n']
                ]
            )
        }
        _ => panic!("Wrong type"),
    }
}

#[test]
fn dict_read() {
    match Bencoding::import(&mut ByteCursor::new("d4:spaml1:a1:bee".as_bytes().to_vec())).unwrap()
    {
        Bencoding::Dictionary(d) => {
            let mut dec_dict = Vec::new();
            for (key, value) in d {
                match value {
                    Bencoding::List(l) => {
                        let mut dec_vec = Vec::new();
                        for element in l {
                            match element {
                                Bencoding::String(s) => dec_vec.push(s),
                                _ => panic!("wrong, should be string"),
                            }
                        }
                        dec_dict.push((key, dec_vec));
                    }
                    _ => panic!("Wrong type, should be list"),
                }
            }
            assert_eq!(
                dec_dict,
                vec![(
                    vec![b's', b'p', b'a', b'm'],
                    vec![vec![b'a'], vec![b'b']]
                )]
            );
        }
        _ => panic!("Wrong type, should be Dict"),
    }
}

#[test]
fn zero_integer_read() {
    match Bencoding::import(&mut ByteCursor::new("i0e".as_bytes().to_vec())).unwrap() {
        Bencoding::Integer(i) => assert_eq!(i, 0),
        _ => panic!("Wrong type"),
    }
}

#[test]
fn trailing_bytes_left_unread() {
    let mut cursor = ByteCursor::new("i3eXYZ".as_bytes().to_vec());
    match Bencoding::import(&mut cursor).unwrap() {
        Bencoding::Integer(i) => assert_eq!(i, 3),
        _ => panic!("Wrong type"),
    }
}

#[test]
fn leading_zero_rejected() {
    let err = Bencoding::import(&mut ByteCursor::new("i03e".as_bytes().to_vec())).unwrap_err();
    assert_eq!(err, DecodeError::LeadingZeroInteger);
}

#[test]
fn negative_zero_rejected() {
    let err = Bencoding::import(&mut ByteCursor::new("i-0e".as_bytes().to_vec())).unwrap_err();
    assert_eq!(err, DecodeError::NegativeZeroInteger);
}

#[test]
fn non_digit_in_integer_rejected() {
    let err = Bencoding::import(&mut ByteCursor::new("ix e".as_bytes().to_vec())).unwrap_err();
    assert_eq!(err, DecodeError::InvalidNumberInteger('x'));
}

#[test]
fn non_digit_in_string_length_rejected() {
    let err = Bencoding::import(&mut ByteCursor::new("3x:abc".as_bytes().to_vec())).unwrap_err();
    assert_eq!(err, DecodeError::InvalidNumberInteger('x'));
}

#[test]
fn unknown_marker_rejected() {
    let err = Bencoding::import(&mut ByteCursor::new("x".as_bytes().to_vec())).unwrap_err();
    assert_eq!(err, DecodeError::UnknownSymbol('x'));
}

#[test]
fn bare_end_marker_rejected() {
    let err = Bencoding::import(&mut ByteCursor::new("e".as_bytes().to_vec())).unwrap_err();
    assert_eq!(err, DecodeError::UnknownSymbol('e'));
}

#[test]
fn duplicate_key_keeps_later_value() {
    match Bencoding::import(&mut ByteCursor::new("d1:ai1e1:ai2ee".as_bytes().to_vec())).unwrap() {
        Bencoding::Dictionary(d) => {
            assert_eq!(d.len(), 1);
            assert_eq!(d[0].0, vec![b'a']);
            assert_eq!(d[0].1, Bencoding::Integer(2));
        }
        _ => panic!("Wrong type, should be Dict"),
    }
}

#[test]
fn integer_key_rejected() {
    let err = Bencoding::import(&mut ByteCursor::new("di3e1:ae".as_bytes().to_vec())).unwrap_err();
    assert_eq!(err, DecodeError::KeyNotStringDictionary(Bencoding::Integer(3)));
}

#[test]
fn list_key_rejected() {
    let err = Bencoding::import(&mut ByteCursor::new("dle1:ae".as_bytes().to_vec())).unwrap_err();
    assert_eq!(err, DecodeError::KeyNotStringDictionary(Bencoding::List(vec![])));
}

#[test]
fn end_marker_in_value_position_rejected() {
    let err = Bencoding::import(&mut ByteCursor::new("d1:ae".as_bytes().to_vec())).unwrap_err();
    assert_eq!(err, DecodeError::UnknownSymbol('e'));
}

#[test]
fn empty_list_read() {
    match Bencoding::import(&mut ByteCursor::new("le".as_bytes().to_vec())).unwrap() {
        Bencoding::List(l) => assert!(l.is_empty()),
        _ => panic!("Wrong type"),
    }
}

#[test]
fn empty_dict_read() {
    match Bencoding::import(&mut ByteCursor::new("de".as_bytes().to_vec())).unwrap() {
        Bencoding::Dictionary(d) => assert!(d.is_empty()),
        _ => panic!("Wrong type"),
    }
}

#[test]
fn empty_string_read() {
    match Bencoding::import(&mut ByteCursor::new("0:".as_bytes().to_vec())).unwrap() {
        Bencoding::String(s) => assert!(s.is_empty()),
        _ => panic!("Wrong type"),
    }
}

#[test]
fn truncation_always_io_failure() {
    let fixtures: Vec<&str> = vec![
        "4:spam",
        "i3e",
        "i-3e",
        "i0e",
        "le",
        "de",
        "0:",
        "l9:bencoding2:is3:fune",
        "d4:spaml1:a1:bee",
    ];
    for fixture in fixtures {
        let bytes = fixture.as_bytes();
        for cut in 0..bytes.len() {
            let err = Bencoding::import(&mut ByteCursor::new(bytes[..cut].to_vec()))
                .unwrap_err();
            assert_eq!(err, DecodeError::IO);
        }
    }
}

#[test]
fn malformed_input_fails_the_same_way_every_time() {
    let inputs: Vec<&str> = vec!["i03e", "i-0e", "ix e", "3x:abc", "x", "e", "di3e1:ae"];
    for input in inputs {
        let first = Bencoding::import(&mut ByteCursor::new(input.as_bytes().to_vec()))
            .unwrap_err();
        let second = Bencoding::import(&mut ByteCursor::new(input.as_bytes().to_vec()))
            .unwrap_err();
        assert_eq!(first, second);
    }
}

#[test]
fn largest_integer_read() {
    match Bencoding::import(&mut ByteCursor::new(
        "i9223372036854775807e".as_bytes().to_vec(),
    ))
    .unwrap()
    {
        Bencoding::Integer(i) => assert_eq!(i, i64::MAX),
        _ => panic!("Wrong type"),
    }
}

#[test]
fn smallest_integer_read() {
    match Bencoding::import(&mut ByteCursor::new(
        "i-9223372036854775808e".as_bytes().to_vec(),
    ))
    .unwrap()
    {
        Bencoding::Integer(i) => assert_eq!(i, i64::MIN),
        _ => panic!("Wrong type"),
    }
}

#[test]
fn too_large_integer_overflows() {
    let err = Bencoding::import(&mut ByteCursor::new(
        "i9223372036854775808e".as_bytes().to_vec(),
    ))
    .unwrap_err();
    assert_eq!(err, DecodeError::Overflow);
}

#[test]
fn too_small_integer_overflows() {
    let err = Bencoding::import(&mut ByteCursor::new(
        "i-9223372036854775809e".as_bytes().to_vec(),
    ))
    .unwrap_err();
    assert_eq!(err, DecodeError::Overflow);
}

#[test]
fn huge_string_length_overflows() {
    let err = Bencoding::import(&mut ByteCursor::new(
        "99999999999999999999999999:a".as_bytes().to_vec(),
    ))
    .unwrap_err();
    assert_eq!(err, DecodeError::Overflow);
}

#[test]
fn nested_aggregates_read() {
    match Bencoding::import(&mut ByteCursor::new("lli2eelee".as_bytes().to_vec())).unwrap() {
        Bencoding::List(l) => {
            assert_eq!(l.len(), 2);
            assert_eq!(l[0], Bencoding::List(vec![Bencoding::Integer(2)]));
            assert_eq!(l[1], Bencoding::List(vec![]));
        }
        _ => panic!("Wrong type"),
    }
}

#[test]
fn error_descriptions_are_fixed() {
    assert_eq!(
        DecodeError::LeadingZeroInteger.description(),
        "A leading zero was read while parsing an integer"
    );
    assert_eq!(
        DecodeError::UnknownSymbol('q').description(),
        "Failed to match symbol to get type of bencoded data to parse"
    );
}
