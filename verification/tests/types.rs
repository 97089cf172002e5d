use fluxdb::error::TypeNameError;
use fluxdb::types::name::TypeName;
use fluxdb::types::varint::{decode_usize_varint, encode_usize_varint};
use fluxdb::types::{Key, Value};
use std::cmp::Ordering;

fn assert_value<T: Value>() {}

fn assert_key<T: Key>() {}

#[test]
fn primitive_values_roundtrip() {
    let bytes = <u8 as Value>::as_bytes(&42);
    assert_eq!(<u8 as Value>::from_bytes(bytes.as_ref()), 42);
    let bytes = <u16 as Value>::as_bytes(&513);
    assert_eq!(<u16 as Value>::from_bytes(bytes.as_ref()), 513);
    let bytes = <u32 as Value>::as_bytes(&123_456);
    assert_eq!(<u32 as Value>::from_bytes(bytes.as_ref()), 123_456);
    let bytes = <u64 as Value>::as_bytes(&123_456_789);
    assert_eq!(<u64 as Value>::from_bytes(bytes.as_ref()), 123_456_789);
    let bytes = <u128 as Value>::as_bytes(&123_456_789_123);
    assert_eq!(<u128 as Value>::from_bytes(bytes.as_ref()), 123_456_789_123);
    let bytes = <i8 as Value>::as_bytes(&-42);
    assert_eq!(<i8 as Value>::from_bytes(bytes.as_ref()), -42);
    let bytes = <i16 as Value>::as_bytes(&-513);
    assert_eq!(<i16 as Value>::from_bytes(bytes.as_ref()), -513);
    let bytes = <i32 as Value>::as_bytes(&-123_456);
    assert_eq!(<i32 as Value>::from_bytes(bytes.as_ref()), -123_456);
    let bytes = <i64 as Value>::as_bytes(&-123_456_789);
    assert_eq!(<i64 as Value>::from_bytes(bytes.as_ref()), -123_456_789);
    let bytes = <i128 as Value>::as_bytes(&-123_456_789_123);
    assert_eq!(
        <i128 as Value>::from_bytes(bytes.as_ref()),
        -123_456_789_123
    );
}

#[test]
fn string_and_char_values_roundtrip() {
    let bytes = <&str as Value>::as_bytes(&"flux");
    assert_eq!(<&str as Value>::from_bytes(bytes.as_ref()), "flux");
    let value = "database".to_string();
    let bytes = <String as Value>::as_bytes(&value);
    assert_eq!(<String as Value>::from_bytes(bytes.as_ref()), "database");
    let bytes = <char as Value>::as_bytes(&'λ');
    assert_eq!(<char as Value>::from_bytes(bytes.as_ref()), 'λ');
    let bytes = <char as Value>::as_bytes(&'\u{10ffff}');
    assert_eq!(<char as Value>::from_bytes(bytes.as_ref()), '\u{10ffff}');
}

#[test]
fn option_values_roundtrip() {
    let some = Some(42u32);
    let none: Option<u32> = None;

    let bytes = <Option<u32> as Value>::as_bytes(&some);
    assert_eq!(<Option<u32> as Value>::from_bytes(bytes.as_ref()), Some(42));
    let bytes = <Option<u32> as Value>::as_bytes(&none);
    assert_eq!(<Option<u32> as Value>::from_bytes(bytes.as_ref()), None);
    assert_eq!(<Option<u32> as Value>::fixed_width(), Some(5));
    assert_eq!(<Option<&str> as Value>::fixed_width(), None);
}

#[test]
fn option_variable_width_roundtrip() {
    let some = Some("hello");
    let none: Option<&str> = None;

    let bytes = <Option<&str> as Value>::as_bytes(&some);
    assert_eq!(<Option<&str> as Value>::from_bytes(bytes.as_ref()), some);

    let bytes = <Option<&str> as Value>::as_bytes(&none);
    assert_eq!(<Option<&str> as Value>::from_bytes(bytes.as_ref()), none);
}

#[test]
fn vec_values_roundtrip() {
    let fixed = vec![1u32, 2, 3, 4];
    let variable = vec!["alpha", "beta", "gamma"];
    let empty: Vec<u64> = Vec::new();

    let bytes = <Vec<u32> as Value>::as_bytes(&fixed);
    assert_eq!(<Vec<u32> as Value>::from_bytes(bytes.as_ref()), fixed);
    let bytes = <Vec<&str> as Value>::as_bytes(&variable);
    assert_eq!(bytes.as_slice(), b"\x03\x05alpha\x04beta\x05gamma");
    assert_eq!(<Vec<&str> as Value>::from_bytes(bytes.as_ref()), variable);
    let bytes = <Vec<u64> as Value>::as_bytes(&empty);
    assert_eq!(<Vec<u64> as Value>::from_bytes(bytes.as_ref()), empty);
}

#[test]
fn arrays_and_fixed_byte_refs_roundtrip() {
    let array = [1u32, 2, 3];
    let byte_array = *b"flux";
    let byte_array_ref = &byte_array;

    let bytes = <[u32; 3] as Value>::as_bytes(&array);
    assert_eq!(<[u32; 3] as Value>::from_bytes(bytes.as_ref()), array);
    let bytes = <&[u8; 4] as Value>::as_bytes(&byte_array_ref);
    assert_eq!(
        <&[u8; 4] as Value>::from_bytes(bytes.as_ref()),
        byte_array_ref
    );
    assert_eq!(
        <&[u8; 4] as Value>::name_of_type(),
        <[u8; 4] as Value>::name_of_type()
    );
}

#[test]
fn key_ordering_uses_logical_order() {
    assert_eq!(
        u32::compare(&10u32.to_le_bytes(), &2u32.to_le_bytes()),
        Ordering::Greater
    );
    assert_eq!(
        i32::compare(&(-10i32).to_le_bytes(), &2i32.to_le_bytes()),
        Ordering::Less
    );
    assert_eq!(<&str>::compare(b"alpha", b"beta"), Ordering::Less);

    let lambda = <char as Value>::as_bytes(&'λ');
    let omega = <char as Value>::as_bytes(&'ω');
    assert_eq!(char::compare(&lambda, &omega), Ordering::Less);

    let none = <Option<u32> as Value>::as_bytes(&None);
    let some_1 = <Option<u32> as Value>::as_bytes(&Some(1));
    let some_2 = <Option<u32> as Value>::as_bytes(&Some(2));
    assert_eq!(
        <Option<u32> as Key>::compare(&none, &some_1),
        Ordering::Less
    );
    assert_eq!(
        <Option<u32> as Key>::compare(&some_1, &some_2),
        Ordering::Less
    );

    assert_eq!(<&[u8; 3] as Key>::compare(b"abc", b"abd"), Ordering::Less);
}

#[test]
fn representative_types_satisfy_trait_bounds() {
    assert_value::<u64>();
    assert_value::<i64>();
    assert_value::<&str>();
    assert_value::<String>();
    assert_value::<Option<&str>>();
    assert_value::<Vec<u32>>();
    assert_value::<Vec<&str>>();
    assert_value::<&[u8; 8]>();

    assert_key::<u64>();
    assert_key::<i64>();
    assert_key::<&str>();
    assert_key::<String>();
    assert_key::<Option<&str>>();
    assert_key::<&[u8; 8]>();
}

#[test]
fn stored_order_is_the_order_of_the_values() {
    let ints = [i64::MIN, -256, -1, 0, 1, 255, 256, i64::MAX];
    for a in ints {
        for b in ints {
            assert_eq!(
                i64::compare(&i64::as_bytes(&a), &i64::as_bytes(&b)),
                a.cmp(&b)
            );
        }
    }
    let arrays = [[0u32, 0, 0], [0, 0, 3], [0, 256, 0], [1, 0, 0]];
    for a in arrays {
        for b in arrays {
            assert_eq!(
                <[u32; 3]>::compare(&<[u32; 3]>::as_bytes(&a), &<[u32; 3]>::as_bytes(&b)),
                a.cmp(&b)
            );
        }
    }
    let lists = [vec![], vec![1u32], vec![1, 2], vec![2], vec![256]];
    for a in &lists {
        for b in &lists {
            assert_eq!(
                <Vec<u32>>::compare(&<Vec<u32>>::as_bytes(a), &<Vec<u32>>::as_bytes(b)),
                a.cmp(b)
            );
        }
    }
    let words = [
        vec![],
        vec!["a".to_string()],
        vec!["a".to_string(), "".to_string()],
        vec!["ab".to_string()],
        vec!["b".to_string()],
    ];
    for a in &words {
        for b in &words {
            assert_eq!(
                <Vec<String>>::compare(&<Vec<String>>::as_bytes(a), &<Vec<String>>::as_bytes(b)),
                a.cmp(b)
            );
        }
    }
}

#[test]
fn array_of_strings_has_a_table_of_ends() {
    let pair = ["ab".to_string(), "c".to_string()];
    let bytes = <[String; 2]>::as_bytes(&pair);
    assert_eq!(bytes, b"\x0a\0\0\0\x0b\0\0\0abc".to_vec());
    assert_eq!(<[String; 2]>::from_bytes(&bytes), pair);
    assert_eq!(<[String; 2]>::fixed_width(), None);
    assert_eq!(<[u16; 3]>::fixed_width(), Some(6));
}

#[test]
fn small_values_roundtrip() {
    for b in [false, true] {
        assert_eq!(bool::from_bytes(&bool::as_bytes(&b)), b);
    }
    assert_eq!(bool::as_bytes(&true), vec![1]);
    assert_eq!(<()>::as_bytes(&()), Vec::<u8>::new());
    let raw: &[u8] = &[3, 1, 2];
    assert_eq!(<&[u8]>::from_bytes(&<&[u8]>::as_bytes(&raw)), raw);
    assert_eq!(
        <Option<&str>>::as_bytes(&Some("hi")),
        vec![1, b'h', b'i']
    );
}

#[test]
fn varint_holds_seven_bits_in_a_byte() {
    let cases: [(usize, Vec<u8>); 5] = [
        (0, vec![0]),
        (127, vec![127]),
        (128, vec![128, 1]),
        (300, vec![172, 2]),
        (65536, vec![128, 128, 4]),
    ];
    for (n, expected) in cases {
        let mut out = vec![7];
        encode_usize_varint(n, &mut out);
        assert_eq!(out[1..], expected);
        assert_eq!(decode_usize_varint(&out, 1), (n, out.len()));
    }
}

#[test]
fn type_names_are_stored_and_read() {
    let own = TypeName::new("point");
    let stored = own.to_bytes();
    assert_eq!(TypeName::from_bytes(&stored), Ok(own));
    assert_eq!(<[u16; 12]>::name_of_type().name(), "[u16;12]");
    assert_eq!(<Vec<Option<u8>>>::name_of_type().name(), "Vec<Option<u8>>");
    let internal = u32::name_of_type().to_bytes();
    assert_ne!(internal, TypeName::new("u32").to_bytes());

    assert_eq!(TypeName::from_bytes(&[]), Err(TypeNameError::Empty));
    assert_eq!(
        TypeName::from_bytes(&[9, b'x']),
        Err(TypeNameError::UnknownClassification(9))
    );
    assert_eq!(
        TypeName::from_bytes(&[stored[0], 0xFF]),
        Err(TypeNameError::InvalidUtf8(0))
    );
    assert_eq!(
        TypeName::from_bytes(&[stored[0], b'a', 0xC3, 0xA9, 0xE2, 0x82]),
        Err(TypeNameError::InvalidUtf8(3))
    );
}
