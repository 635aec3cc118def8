use ordkey::{from_key, to_key, F32Bits, F64Bits};

/// Enumerates successive pairs of byte vectors, each pair ordered, walking
/// the vectors of length at most `max_len` the way an odometer with a
/// growing tail does.
fn vec_range_pairs(max_len: usize) -> Vec<(Vec<u8>, Vec<u8>)> {
    let mut pairs = Vec::new();
    let mut cur: Vec<u8> = vec![];
    loop {
        let mut state = true;
        let old = cur.clone();
        loop {
            if cur.len() == 0 {
                if state {
                    cur.push(0);
                    break;
                } else {
                    return pairs;
                }
            }
            if state && (cur.len() < max_len) {
                if *cur.last().unwrap() == 255 {
                    cur.push(0);
                    break;
                }
                *cur.last_mut().unwrap() += 1;
                break;
            }
            if *cur.last().unwrap() == 255 {
                cur.pop();
                state = false;
                continue;
            }
            *cur.last_mut().unwrap() += 1;
            break;
        }
        pairs.push((old, cur.clone()));
    }
}

#[test]
fn test_string() {
    let s: String = "123".into();
    assert_eq!(from_key::<String>(to_key(s.clone())).unwrap(), s);

    for c in '\0' as u32..('😃' as u32) {
        let a = std::char::from_u32(c);
        let b = std::char::from_u32(c + 1);
        if a.is_none() {
            continue;
        }
        if b.is_none() {
            continue;
        }
        assert!(to_key(a.unwrap().to_string()) < to_key(b.unwrap().to_string()));
    }
}

#[test]
fn test_vec_u8() {
    let v = vec![1u8, 2, 3, 4];
    assert_eq!(from_key::<Vec<u8>>(to_key(v.clone())).unwrap(), v);
    for (old_v, new_v) in vec_range_pairs(6) {
        assert!(to_key(new_v.clone()) > to_key(old_v.clone()));
    }
}

#[test]
fn test_bool() {
    assert_eq!(from_key::<bool>(to_key(true)).unwrap(), true);
    assert_eq!(to_key(true), vec![1]);
}

#[test]
fn test_tuple() {
    let list1: Vec<u8> = vec![1, 2, 1, 2, 0];
    let list2: Vec<u8> = vec![1, 2, 1, 2, 2];
    let string: String = "123".to_owned();
    let key = to_key((
        list1.clone(),
        list2.clone(),
        string.clone(),
        true,
        F32Bits { bits: 1.0f32.to_bits() },
        1i64,
    ));

    let (l1, l2, s, b, f, i): (Vec<u8>, Vec<u8>, String, bool, F32Bits, i64) =
        from_key(key).unwrap();
    assert_eq!(list1, l1);
    assert_eq!(list2, l2);
    assert_eq!(string, s);
    assert_eq!(true, b);
    assert_eq!(1.0f32, f32::from_bits(f.bits));
    assert_eq!(1i64, i);
}

#[test]
fn test_tuple2() {
    for (a1, _) in vec_range_pairs(2) {
        for (a2, _) in vec_range_pairs(2) {
            for b1 in [0u16, 1, u16::MAX] {
                for b2 in [0u16, 1, u16::MAX] {
                    if a1 < a2 {
                        assert!(to_key((a1.clone(), b1)) < to_key((a2.clone(), b2)));
                        continue;
                    }
                    if a1 > a2 {
                        assert!(to_key((a1.clone(), b1)) > to_key((a2.clone(), b2)));
                        continue;
                    }
                    assert!(
                        b1.cmp(&b2) == to_key((a1.clone(), b1)).cmp(&to_key((a2.clone(), b2)))
                    )
                }
            }
        }
    }
}

#[test]
fn sort_u8() {
    let mut list = vec![u8::MAX, 1, 2, 0];
    list.sort_by_key(|value| {
        assert_eq!(from_key::<u8>(to_key(*value)).unwrap(), *value);
        to_key(*value)
    });
    assert_eq!(list, vec![0, 1, 2, u8::MAX]);
}

#[test]
fn sort_u16() {
    let mut list = vec![u16::MAX, 1, 2, 0];
    list.sort_by_key(|value| {
        assert_eq!(from_key::<u16>(to_key(*value)).unwrap(), *value);
        to_key(*value)
    });
    assert_eq!(list, vec![0, 1, 2, u16::MAX]);
}

#[test]
fn sort_u32() {
    let mut list = vec![u32::MAX, 1, 2, 0];
    list.sort_by_key(|value| {
        assert_eq!(from_key::<u32>(to_key(*value)).unwrap(), *value);
        to_key(*value)
    });
    assert_eq!(list, vec![0, 1, 2, u32::MAX]);
}

#[test]
fn sort_u64() {
    let mut list = vec![u64::MAX, 1, 2, 0];
    list.sort_by_key(|value| {
        assert_eq!(from_key::<u64>(to_key(*value)).unwrap(), *value);
        to_key(*value)
    });
    assert_eq!(list, vec![0, 1, 2, u64::MAX]);
}

#[test]
fn sort_u128() {
    let mut list = vec![u128::MAX, 1, 2, 0];
    list.sort_by_key(|value| {
        assert_eq!(from_key::<u128>(to_key(*value)).unwrap(), *value);
        to_key(*value)
    });
    assert_eq!(list, vec![0, 1, 2, u128::MAX]);
}

#[test]
fn sort_i8() {
    let mut list = vec![i8::MAX, i8::MIN, 1, 2, -1, -2, 0];
    list.sort_by_key(|value| {
        assert_eq!(from_key::<i8>(to_key(*value)).unwrap(), *value);
        to_key(*value)
    });
    assert_eq!(list, vec![i8::MIN, -2, -1, 0, 1, 2, i8::MAX]);
}

#[test]
fn sort_i16() {
    let mut list = vec![i16::MAX, i16::MIN, 1, 2, -1, -2, 0];
    list.sort_by_key(|value| {
        assert_eq!(from_key::<i16>(to_key(*value)).unwrap(), *value);
        to_key(*value)
    });
    assert_eq!(list, vec![i16::MIN, -2, -1, 0, 1, 2, i16::MAX]);
}

#[test]
fn sort_i32() {
    let mut list = vec![i32::MAX, i32::MIN, 1, 2, -1, -2, 0];
    list.sort_by_key(|value| {
        assert_eq!(from_key::<i32>(to_key(*value)).unwrap(), *value);
        to_key(*value)
    });
    assert_eq!(list, vec![i32::MIN, -2, -1, 0, 1, 2, i32::MAX]);
}

#[test]
fn sort_i64() {
    let mut list = vec![i64::MAX, i64::MIN, 1, 2, -1, -2, 0];
    list.sort_by_key(|value| {
        assert_eq!(from_key::<i64>(to_key(*value)).unwrap(), *value);
        to_key(*value)
    });
    assert_eq!(list, vec![i64::MIN, -2, -1, 0, 1, 2, i64::MAX]);
}

#[test]
fn sort_i128() {
    let mut list = vec![i128::MAX, i128::MIN, 1, 2, -1, -2, 0];
    list.sort_by_key(|value| {
        assert_eq!(from_key::<i128>(to_key(*value)).unwrap(), *value);
        to_key(*value)
    });
    assert_eq!(list, vec![i128::MIN, -2, -1, 0, 1, 2, i128::MAX]);
}

#[test]
fn sort_f32() {
    let mut list: Vec<f32> = vec![
        0.0,
        -0.0,
        1.0,
        -1.0,
        1.1,
        -1.1,
        0.001,
        -0.001,
        f32::INFINITY,
        f32::MAX,
        f32::MIN,
        f32::NEG_INFINITY,
    ];
    list.sort_by_key(|value| {
        let decoded = from_key::<F32Bits>(to_key(F32Bits { bits: value.to_bits() })).unwrap();
        assert_eq!(decoded.bits, value.to_bits());
        to_key(F32Bits { bits: value.to_bits() })
    });
    let expected: Vec<f32> = vec![
        f32::NEG_INFINITY,
        f32::MIN,
        -1.1,
        -1.0,
        -0.001,
        -0.0,
        0.0,
        0.001,
        1.0,
        1.1,
        f32::MAX,
        f32::INFINITY,
    ];
    for (got, want) in list.iter().zip(expected.iter()) {
        assert_eq!(got.to_bits(), want.to_bits());
    }
    assert!(
        to_key(F32Bits { bits: f32::NAN.to_bits() })
            > to_key(F32Bits { bits: f32::INFINITY.to_bits() })
    );
}

#[test]
fn sort_f64() {
    let mut list: Vec<f64> = vec![
        0.0,
        -0.0,
        1.0,
        -1.0,
        1.1,
        -1.1,
        0.001,
        -0.001,
        f64::INFINITY,
        f64::MAX,
        f64::MIN,
        f64::NEG_INFINITY,
    ];
    list.sort_by_key(|value| {
        let decoded = from_key::<F64Bits>(to_key(F64Bits { bits: value.to_bits() })).unwrap();
        assert_eq!(decoded.bits, value.to_bits());
        to_key(F64Bits { bits: value.to_bits() })
    });
    let expected: Vec<f64> = vec![
        f64::NEG_INFINITY,
        f64::MIN,
        -1.1,
        -1.0,
        -0.001,
        -0.0,
        0.0,
        0.001,
        1.0,
        1.1,
        f64::MAX,
        f64::INFINITY,
    ];
    for (got, want) in list.iter().zip(expected.iter()) {
        assert_eq!(got.to_bits(), want.to_bits());
    }
    assert!(
        to_key(F64Bits { bits: f64::NAN.to_bits() })
            > to_key(F64Bits { bits: f64::INFINITY.to_bits() })
    );
}
