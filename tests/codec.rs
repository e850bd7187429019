use factorio_mod_settings::{
    dict_insert_entry, dict_lookup, loose_bool, loose_bool_byte, DecodeError, FactorioVersion,
    Property, PropertyValue, Settings,
};

const SIMPLE_HEX: &str = "01 00 01 00 52 00 04 00 00 05 00 03 00 00 00 00 07 73 74 61 72 74 75 70 05 00 01 00 00 00 00 11 6D 79 2D 73 74 72 69 6E 67 2D 73 65 74 74 69 6E 67 05 00 01 00 00 00 00 05 76 61 6C 75 65 03 00 00 08 64 65 61 64 62 65 65 66 00 0E 72 75 6E 74 69 6D 65 2D 67 6C 6F 62 61 6C 05 00 00 00 00 00 00 10 72 75 6E 74 69 6D 65 2D 70 65 72 2D 75 73 65 72 05 00 00 00 00 00";

fn hex(s: &str) -> Vec<u8> {
    s.split_whitespace()
        .map(|b| u8::from_str_radix(b, 16).expect("hex byte"))
        .collect()
}

fn get_map(prop: &Property) -> &Vec<(String, Property)> {
    match &prop.value {
        PropertyValue::Dictionary(map) => map,
        _ => panic!("expected dictionary"),
    }
}

fn get<'a>(map: &'a Vec<(String, Property)>, key: &str) -> Option<&'a Property> {
    dict_lookup(map, &key.to_owned())
}

fn node(value: PropertyValue) -> Property {
    Property { any_flag: false, value }
}

fn header() -> Vec<u8> {
    hex("01 00 01 00 52 00 04 00 00")
}

/// Encodes one string the way the format does, for building inputs.
fn string_bytes(s: &str) -> Vec<u8> {
    let mut out = vec![0u8];
    if s.len() < 255 {
        out.push(s.len() as u8);
    } else {
        out.push(255);
        out.extend_from_slice(&(s.len() as u32).to_le_bytes());
    }
    out.extend_from_slice(s.as_bytes());
    out
}

#[test]
fn simple_encoded() {
    let data = hex(SIMPLE_HEX);
    let settings = Settings::decode(&data).expect("decoding settings");
    assert_eq!(
        settings.version,
        FactorioVersion {
            major: 1,
            minor: 1,
            patch: 82,
            build: 4
        },
        "version"
    );
    assert!(!settings.properties.any_flag, "should be false");
    println!("{:?}", &settings.properties);
    let root = get_map(&settings.properties);
    let startup_dict = get_map(get(root, "startup").expect("missing startup"));
    let my_setting = get_map(
        get(startup_dict, "my-string-setting").expect("missing my-string-setting"),
    );
    let value = get(my_setting, "value").expect("missing value");
    match &value.value {
        PropertyValue::String(s) => assert_eq!(s, "deadbeef", "incorrect value"),
        _ => panic!("Incorrect type"),
    }
}

#[test]
fn reencoding_the_sample_gives_the_same_bytes() {
    let data = hex(SIMPLE_HEX);
    let settings = Settings::decode(&data).expect("decoding");
    assert_eq!(settings.encode(), data);
}

#[test]
fn root_sections_keep_wire_order() {
    let data = hex(SIMPLE_HEX);
    let settings = Settings::decode(&data).expect("decoding");
    let keys: Vec<&str> = get_map(&settings.properties).iter().map(|(k, _)| k.as_str()).collect();
    assert_eq!(keys, vec!["startup", "runtime-global", "runtime-per-user"]);
}

#[test]
fn loose_bool_rule() {
    assert!(loose_bool(1));
    assert!(!loose_bool(0));
    assert!(!loose_bool(2));
    assert!(!loose_bool(0xFF));
    assert_eq!(loose_bool_byte(true), 1);
    assert_eq!(loose_bool_byte(false), 0);
}

#[test]
fn loose_bool_decoding_of_bool_nodes_and_flags() {
    for (byte, expected) in [(0x01u8, true), (0x00, false), (0x02, false), (0xFF, false)] {
        let mut data = header();
        data.extend_from_slice(&[1, byte, byte]);
        let settings = Settings::decode(&data).expect("decoding a bool");
        assert_eq!(settings.properties.any_flag, expected);
        match settings.properties.value {
            PropertyValue::Bool(b) => assert_eq!(b, expected),
            _ => panic!("expected a bool"),
        }
    }
}

#[test]
fn bool_is_reencoded_strictly() {
    let mut data = header();
    data.extend_from_slice(&[1, 0x02, 0xFF]);
    let settings = Settings::decode(&data).expect("decoding");
    let mut expected = header();
    expected.extend_from_slice(&[1, 0, 0]);
    assert_eq!(settings.encode(), expected);
}

fn string_settings(s: &str) -> Settings {
    Settings {
        version: FactorioVersion { major: 2, minor: 0, patch: 10, build: 0 },
        properties: node(PropertyValue::String(s.to_owned())),
    }
}

#[test]
fn string_of_254_bytes_has_a_one_byte_length() {
    let s = "x".repeat(254);
    let bytes = string_settings(&s).encode();
    assert_eq!(&bytes[9..13], &[3, 0, 0, 254]);
    assert_eq!(bytes.len(), 9 + 2 + 2 + 254);
}

#[test]
fn string_of_255_bytes_has_a_marked_four_byte_length() {
    let s = "y".repeat(255);
    let bytes = string_settings(&s).encode();
    assert_eq!(&bytes[9..17], &[3, 0, 0, 0xFF, 255, 0, 0, 0]);
    assert_eq!(bytes.len(), 9 + 2 + 6 + 255);
    let back = Settings::decode(&bytes).expect("decoding");
    match back.properties.value {
        PropertyValue::String(t) => assert_eq!(t, s),
        _ => panic!("expected a string"),
    }
}

#[test]
fn empty_string_is_written_with_the_not_empty_sentinel() {
    let bytes = string_settings("").encode();
    assert_eq!(&bytes[9..], &[3, 0, 0, 0]);
}

#[test]
fn empty_sentinel_reads_an_empty_string() {
    let mut data = header();
    data.extend_from_slice(&[3, 0, 1]);
    let settings = Settings::decode(&data).expect("decoding");
    match settings.properties.value {
        PropertyValue::String(s) => assert_eq!(s, ""),
        _ => panic!("expected a string"),
    }
}

#[test]
fn multibyte_string_round_trips() {
    let s = "Grün ✓ 🚂";
    let bytes = string_settings(s).encode();
    assert_eq!(bytes[12] as usize, s.len());
    let back = Settings::decode(&bytes).expect("decoding");
    match back.properties.value {
        PropertyValue::String(t) => assert_eq!(t, s),
        _ => panic!("expected a string"),
    }
}

#[test]
fn unknown_tag_is_rejected() {
    let mut data = header();
    data.extend_from_slice(&[0x07, 0x00]);
    assert_eq!(Settings::decode(&data).unwrap_err(), DecodeError::UnknownTypeTag(7));
    let mut data = header();
    data.extend_from_slice(&[0xFF, 0x00, 0x00]);
    assert_eq!(Settings::decode(&data).unwrap_err(), DecodeError::UnknownTypeTag(0xFF));
}

#[test]
fn reserved_byte_must_be_zero() {
    let mut data = hex("01 00 01 00 52 00 04 00 01");
    data.extend_from_slice(&[0, 0]);
    assert_eq!(Settings::decode(&data).unwrap_err(), DecodeError::InvalidHeaderByte(1));
}

#[test]
fn truncated_inputs_are_rejected() {
    let data = hex(SIMPLE_HEX);
    for cut in [0, 5, 8, 9, 10, 20, data.len() - 1] {
        assert_eq!(
            Settings::decode(&data[..cut]).unwrap_err(),
            DecodeError::Truncated,
            "cut at {}",
            cut
        );
    }
}

#[test]
fn invalid_utf8_is_rejected() {
    let mut data = header();
    data.extend_from_slice(&[3, 0, 0, 2, 0xC3, 0x28]);
    assert_eq!(Settings::decode(&data).unwrap_err(), DecodeError::InvalidUtf8);
}

#[test]
fn trailing_bytes_are_ignored() {
    let mut data = header();
    data.extend_from_slice(&[0, 1, 9, 9, 9]);
    let settings = Settings::decode(&data).expect("decoding");
    assert!(settings.properties.any_flag);
    assert!(matches!(settings.properties.value, PropertyValue::Empty));
}

#[test]
fn every_variant_round_trips() {
    let color = vec![
        ("r".to_owned(), node(PropertyValue::Double(0.25f64.to_bits()))),
        ("g".to_owned(), node(PropertyValue::Double(f64::NAN.to_bits()))),
    ];
    let list = vec![
        node(PropertyValue::Empty),
        Property { any_flag: true, value: PropertyValue::Bool(true) },
        node(PropertyValue::Double((-3.5f64).to_bits())),
        node(PropertyValue::String("text".to_owned())),
        node(PropertyValue::Integer(-42)),
        node(PropertyValue::Integer(i64::MIN)),
        node(PropertyValue::Dictionary(color)),
        node(PropertyValue::List(vec![])),
    ];
    let settings = Settings {
        version: FactorioVersion { major: 2, minor: 0, patch: 28, build: 1 },
        properties: node(PropertyValue::List(list)),
    };
    let bytes = settings.encode();
    let back = Settings::decode(&bytes).expect("decoding");
    assert_eq!(back.version, settings.version);
    assert_eq!(format!("{:?}", back.properties), format!("{:?}", settings.properties));
    assert_eq!(back.encode(), bytes);
}

#[test]
fn double_and_integer_are_little_endian() {
    let settings = Settings {
        version: FactorioVersion { major: 1, minor: 2, patch: 3, build: 4 },
        properties: node(PropertyValue::Double(1.0f64.to_bits())),
    };
    assert_eq!(
        settings.encode(),
        vec![1, 0, 2, 0, 3, 0, 4, 0, 0, 2, 0, 0, 0, 0, 0, 0, 0, 0xF0, 0x3F]
    );
    let settings = Settings {
        version: FactorioVersion { major: 1, minor: 2, patch: 3, build: 4 },
        properties: node(PropertyValue::Integer(-2)),
    };
    assert_eq!(
        settings.encode(),
        vec![1, 0, 2, 0, 3, 0, 4, 0, 0, 6, 0, 0xFE, 0xFF, 0xFF, 0xFF, 0xFF, 0xFF, 0xFF, 0xFF]
    );
}

#[test]
fn list_is_a_counted_sequence_of_nodes() {
    let settings = Settings {
        version: FactorioVersion { major: 1, minor: 1, patch: 0, build: 0 },
        properties: node(PropertyValue::List(vec![
            node(PropertyValue::Bool(true)),
            node(PropertyValue::Empty),
        ])),
    };
    assert_eq!(
        &settings.encode()[9..],
        &[4, 0, 2, 0, 0, 0, 1, 0, 1, 0, 0]
    );
}

#[test]
fn repeated_key_keeps_first_place_and_last_value() {
    let mut data = header();
    data.extend_from_slice(&[5, 0, 3, 0, 0, 0]);
    data.extend_from_slice(&string_bytes("a"));
    data.extend_from_slice(&[1, 0, 0]);
    data.extend_from_slice(&string_bytes("b"));
    data.extend_from_slice(&[0, 0]);
    data.extend_from_slice(&string_bytes("a"));
    data.extend_from_slice(&[1, 0, 1]);
    let settings = Settings::decode(&data).expect("decoding");
    let map = get_map(&settings.properties);
    assert_eq!(map.len(), 2);
    assert_eq!(map[0].0, "a");
    assert!(matches!(map[0].1.value, PropertyValue::Bool(true)));
    assert_eq!(map[1].0, "b");
}

#[test]
fn dict_insert_entry_replaces_in_place() {
    let mut entries = Vec::new();
    dict_insert_entry(&mut entries, "x".to_owned(), node(PropertyValue::Integer(1)));
    dict_insert_entry(&mut entries, "y".to_owned(), node(PropertyValue::Integer(2)));
    dict_insert_entry(&mut entries, "x".to_owned(), node(PropertyValue::Integer(3)));
    assert_eq!(entries.len(), 2);
    assert_eq!(entries[0].0, "x");
    assert!(matches!(entries[0].1.value, PropertyValue::Integer(3)));
    assert!(get(&entries, "z").is_none());
}

#[test]
fn noncanonical_input_reencodes_to_the_same_tree() {
    let mut data = header();
    // A dictionary with flag byte 2, holding key "k" (length in the long
    // form) mapped to a string whose "is empty" byte is 7.
    data.extend_from_slice(&[5, 2, 1, 0, 0, 0]);
    data.extend_from_slice(&[0, 0xFF, 1, 0, 0, 0, b'k']);
    data.extend_from_slice(&[3, 0, 7, 2, b'o', b'k']);
    let first = Settings::decode(&data).expect("decoding");
    let bytes = first.encode();
    assert_ne!(bytes, data);
    let second = Settings::decode(&bytes).expect("decoding again");
    assert_eq!(format!("{:?}", second.properties), format!("{:?}", first.properties));
    assert_eq!(second.encode(), bytes);
    let map = get_map(&first.properties);
    assert!(!first.properties.any_flag);
    assert_eq!(map[0].0, "k");
    assert!(matches!(&map[0].1.value, PropertyValue::String(s) if s == "ok"));
}

#[test]
fn clone_is_a_deep_copy() {
    let data = hex(SIMPLE_HEX);
    let settings = Settings::decode(&data).expect("decoding");
    let copy = settings.clone();
    drop(settings);
    assert_eq!(copy.encode(), data);
}

#[test]
fn accessors_pick_their_variant() {
    let v = PropertyValue::Integer(5);
    assert_eq!(v.as_integer(), Some(&5));
    assert_eq!(v.as_bool(), None);
    assert!(v.as_double().is_none() && v.as_string().is_none());
    assert!(v.as_list().is_none() && v.as_dictionary().is_none());
    let d = PropertyValue::Double(1.5f64.to_bits());
    assert_eq!(d.as_double().map(|b| f64::from_bits(*b)), Some(1.5));
}
