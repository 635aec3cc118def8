use ordkey::{escape_decode, escape_encode, from_key, to_key, F64Bits, KeyError};

#[test]
fn numeric_order_i32() {
    assert!(to_key(i32::MIN) < to_key(-2i32));
    assert!(to_key(-2i32) < to_key(-1i32));
    assert!(to_key(-1i32) < to_key(0i32));
    assert!(to_key(0i32) < to_key(1i32));
    assert!(to_key(1i32) < to_key(i32::MAX));
}

#[test]
fn float_edge_cases() {
    let key = |v: f64| to_key(F64Bits { bits: v.to_bits() });
    assert!(key(-0.0) < key(0.0));
    let inputs: Vec<f64> = vec![
        0.0,
        -0.0,
        1.0,
        -1.0,
        f64::MIN,
        f64::MAX,
        f64::INFINITY,
        f64::NEG_INFINITY,
        f64::MIN_POSITIVE,
        f64::NAN,
    ];
    for v in inputs {
        if v.to_bits() != f64::NEG_INFINITY.to_bits() {
            assert!(key(f64::NEG_INFINITY) < key(v));
        }
    }
    assert!(key(f64::NAN) > key(f64::INFINITY));
    assert!(key(-f64::NAN) < key(f64::NAN));
}

#[test]
fn escape_order_concrete() {
    assert!(to_key(vec![1u8, 2, 3]) < to_key(vec![1u8, 2, 3, 0]));
    assert!(to_key(vec![1u8, 2, 3, 0]) < to_key(vec![1u8, 2, 4]));
}

#[test]
fn escape_round_trip_boundary_bytes() {
    let v: Vec<u8> = vec![0x00, 0x01, 0x02, 0xFF];
    assert_eq!(from_key::<Vec<u8>>(to_key(v.clone())).unwrap(), v);
}

#[test]
fn escape_wire_format() {
    let mut out: Vec<u8> = Vec::new();
    escape_encode(&[0x00, 0x01, 0x02], &mut out);
    assert_eq!(out, vec![0x01, 0x00, 0x01, 0x01, 0x02, 0x00]);

    let mut decoded: Vec<u8> = Vec::new();
    let mut pos: usize = 0;
    escape_decode(&out, &mut pos, &mut decoded).unwrap();
    assert_eq!(decoded, vec![0x00, 0x01, 0x02]);
    assert_eq!(pos, out.len());
}

#[test]
fn escape_decode_unterminated() {
    let mut decoded: Vec<u8> = Vec::new();
    let mut pos: usize = 0;
    assert_eq!(
        escape_decode(&[0x05, 0x06], &mut pos, &mut decoded),
        Err(KeyError::Unterminated)
    );
    assert_eq!(pos, 0);
    assert_eq!(decoded, Vec::<u8>::new());

    // Input ending right after an escape marker is unterminated too.
    let mut pos2: usize = 0;
    assert_eq!(
        escape_decode(&[0x05, 0x01], &mut pos2, &mut decoded),
        Err(KeyError::Unterminated)
    );
}

#[test]
fn tuple_order_concrete() {
    assert!(to_key((vec![1u8, 2], 0u16)) < to_key((vec![1u8, 3], 65535u16)));
    assert!(to_key((vec![1u8, 2], 1u16)) < to_key((vec![1u8, 2], 2u16)));
}

#[test]
fn truncation_failures() {
    assert_eq!(from_key::<u32>(vec![1, 2, 3]), Err(KeyError::Truncated));
    assert_eq!(from_key::<String>(vec![]), Err(KeyError::Unterminated));
    assert_eq!(from_key::<bool>(vec![]), Err(KeyError::Truncated));
    assert_eq!(from_key::<u128>(vec![0; 15]), Err(KeyError::Truncated));
}

#[test]
fn invalid_text_rejected() {
    // A blob holding a lone continuation byte decodes as bytes but not as
    // text.
    let key = to_key(vec![0xFFu8]);
    assert_eq!(from_key::<Vec<u8>>(key.clone()).unwrap(), vec![0xFFu8]);
    assert_eq!(from_key::<String>(key), Err(KeyError::InvalidText));
}

#[test]
fn multibyte_text_round_trip() {
    let s: String = "héllo — 😀 ありがとう".to_owned();
    assert_eq!(from_key::<String>(to_key(s.clone())).unwrap(), s);
    // Text and its UTF-8 bytes share one wire format.
    assert_eq!(to_key(s.clone()), to_key(s.into_bytes()));
}

#[test]
fn tuple_trailing_bytes_ignored() {
    let mut key = to_key((1u16, 2u16));
    key.push(0x7F);
    let (a, b): (u16, u16) = from_key(key).unwrap();
    assert_eq!((a, b), (1u16, 2u16));
}

#[test]
fn nested_and_wide_tuples() {
    let nested = ((1u8, vec![9u8, 0, 9]), "x".to_owned());
    let key = to_key(((1u8, vec![9u8, 0, 9]), "x".to_owned()));
    let decoded: ((u8, Vec<u8>), String) = from_key(key).unwrap();
    assert_eq!(decoded, nested);

    let wide = (
        1u8,
        2u16,
        3u32,
        4u64,
        5u128,
        -6i8,
        -7i16,
        -8i32,
        true,
        "nine".to_owned(),
        vec![10u8],
    );
    let key = to_key(wide.clone());
    let decoded: (u8, u16, u32, u64, u128, i8, i16, i32, bool, String, Vec<u8>) =
        from_key(key).unwrap();
    assert_eq!(decoded, wide);
}

#[test]
fn tuple_decode_reports_member_error() {
    // First member decodes, second is truncated.
    let key = to_key(255u8);
    assert_eq!(from_key::<(u8, u32)>(key), Err(KeyError::Truncated));
    // First member fails before the second is looked at.
    assert_eq!(from_key::<(String, u8)>(vec![]), Err(KeyError::Unterminated));
}

#[test]
fn signed_wire_format() {
    assert_eq!(to_key(0i16), vec![0x80, 0x00]);
    assert_eq!(to_key(-1i16), vec![0x7F, 0xFF]);
    assert_eq!(to_key(i16::MIN), vec![0x00, 0x00]);
    assert_eq!(to_key(i16::MAX), vec![0xFF, 0xFF]);
    assert_eq!(to_key(258u16), vec![0x01, 0x02]);
}
