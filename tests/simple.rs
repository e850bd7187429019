use factorio_mod_settings::{
    ColorChannel, FactorioVersion, ModSettings, ModSettingsValue, ProjectionError, Property,
    PropertyValue, SettingError, Settings,
};
use indexmap::IndexMap;

const SIMPLE_HEX: &str = "01 00 01 00 52 00 04 00 00 05 00 03 00 00 00 00 07 73 74 61 72 74 75 70 05 00 01 00 00 00 00 11 6D 79 2D 73 74 72 69 6E 67 2D 73 65 74 74 69 6E 67 05 00 01 00 00 00 00 05 76 61 6C 75 65 03 00 00 08 64 65 61 64 62 65 65 66 00 0E 72 75 6E 74 69 6D 65 2D 67 6C 6F 62 61 6C 05 00 00 00 00 00 00 10 72 75 6E 74 69 6D 65 2D 70 65 72 2D 75 73 65 72 05 00 00 00 00 00";

fn hex(s: &str) -> Vec<u8> {
    s.split_whitespace()
        .map(|b| u8::from_str_radix(b, 16).expect("hex byte"))
        .collect()
}

fn node(value: PropertyValue) -> Property {
    Property { any_flag: false, value }
}

fn dict(entries: Vec<(&str, Property)>) -> Property {
    node(PropertyValue::Dictionary(
        entries.into_iter().map(|(k, v)| (k.to_owned(), v)).collect(),
    ))
}

fn setting(value: Property) -> Property {
    dict(vec![("value", value)])
}

fn tree(sections: Vec<(&str, Property)>) -> Settings {
    Settings {
        version: FactorioVersion { major: 1, minor: 1, patch: 82, build: 4 },
        properties: dict(sections),
    }
}

fn sample() -> ModSettings {
    let mut startup = IndexMap::new();
    startup.insert("a-bool".to_owned(), ModSettingsValue::Bool(true));
    startup.insert("a-number".to_owned(), ModSettingsValue::Number(2.5f64.to_bits()));
    startup.insert("a-string".to_owned(), ModSettingsValue::String("hello".to_owned()));
    let mut runtime_global = IndexMap::new();
    runtime_global.insert(
        "a-color".to_owned(),
        ModSettingsValue::Color {
            r: 1.0f64.to_bits(),
            g: 0.5f64.to_bits(),
            b: 0.25f64.to_bits(),
            a: 0.0f64.to_bits(),
        },
    );
    let mut runtime_per_user = IndexMap::new();
    runtime_per_user.insert("an-integer".to_owned(), ModSettingsValue::Integer(-7));
    runtime_per_user.insert("z-last".to_owned(), ModSettingsValue::Bool(false));
    ModSettings {
        factorio_version: FactorioVersion { major: 2, minor: 0, patch: 28, build: 0 },
        startup,
        runtime_global,
        runtime_per_user,
    }
}

#[test]
fn end_to_end_sample_projects_to_the_string_setting() {
    let settings = Settings::decode(&hex(SIMPLE_HEX)).expect("decoding");
    let simple = ModSettings::try_from(&settings).expect("projecting");
    assert_eq!(simple.factorio_version, FactorioVersion { major: 1, minor: 1, patch: 82, build: 4 });
    assert_eq!(simple.startup.len(), 1);
    assert_eq!(
        simple.startup.get("my-string-setting"),
        Some(&ModSettingsValue::String("deadbeef".to_owned()))
    );
    assert!(simple.runtime_global.is_empty());
    assert!(simple.runtime_per_user.is_empty());
}

#[test]
fn projection_round_trip() {
    let simple = sample();
    let back = ModSettings::try_from(&Settings::from_simple(&simple)).expect("projecting");
    assert_eq!(back, simple);
    let order: Vec<&String> = back.startup.keys().collect();
    assert_eq!(order, vec!["a-bool", "a-number", "a-string"]);
}

#[test]
fn projection_then_bytes_round_trip() {
    let simple = sample();
    let bytes = Settings::from_simple(&simple).encode();
    let decoded = Settings::decode(&bytes).expect("decoding");
    assert_eq!(ModSettings::try_from(&decoded).expect("projecting"), simple);
}

#[test]
fn serialize_empty() {
    let settings = ModSettings {
        factorio_version: FactorioVersion { major: 1, minor: 1, build: 4, patch: 82 },
        startup: IndexMap::new(),
        runtime_global: IndexMap::new(),
        runtime_per_user: IndexMap::new(),
    };
    let bytes = Settings::from_simple(&settings).encode();
    let mut expected = hex("01 00 01 00 52 00 04 00 00 05 00 03 00 00 00");
    for name in ["startup", "runtime-global", "runtime-per-user"] {
        expected.extend_from_slice(&[0, name.len() as u8]);
        expected.extend_from_slice(name.as_bytes());
        expected.extend_from_slice(&[5, 0, 0, 0, 0, 0]);
    }
    assert_eq!(bytes, expected);
}

#[test]
fn from_simple_builds_value_dictionaries() {
    let simple = sample();
    let settings = Settings::from_simple(&simple);
    assert!(!settings.properties.any_flag);
    let root = match &settings.properties.value {
        PropertyValue::Dictionary(d) => d,
        _ => panic!("root is a dictionary"),
    };
    assert_eq!(root[1].0, "runtime-global");
    let global = match &root[1].1.value {
        PropertyValue::Dictionary(d) => d,
        _ => panic!("section is a dictionary"),
    };
    assert_eq!(global[0].0, "a-color");
    let inner = match &global[0].1.value {
        PropertyValue::Dictionary(d) => d,
        _ => panic!("setting is a dictionary"),
    };
    assert_eq!(inner.len(), 1);
    assert_eq!(inner[0].0, "value");
    let color = match &inner[0].1.value {
        PropertyValue::Dictionary(d) => d,
        _ => panic!("color is a dictionary"),
    };
    let keys: Vec<&str> = color.iter().map(|(k, _)| k.as_str()).collect();
    assert_eq!(keys, vec!["r", "g", "b", "a"]);
    assert!(matches!(color[1].1.value, PropertyValue::Double(bits) if bits == 0.5f64.to_bits()));
}

#[test]
fn missing_runtime_per_user_is_named() {
    let settings = tree(vec![("startup", dict(vec![])), ("runtime-global", dict(vec![]))]);
    assert_eq!(
        ModSettings::try_from(&settings).unwrap_err(),
        ProjectionError::MissingSection("runtime-per-user".to_owned())
    );
}

#[test]
fn missing_startup_is_named_first() {
    let settings = tree(vec![("runtime-global", dict(vec![]))]);
    assert_eq!(
        ModSettings::try_from(&settings).unwrap_err(),
        ProjectionError::MissingSection("startup".to_owned())
    );
}

#[test]
fn root_must_be_a_dictionary() {
    let settings = Settings {
        version: FactorioVersion { major: 1, minor: 0, patch: 0, build: 0 },
        properties: node(PropertyValue::Empty),
    };
    assert_eq!(ModSettings::try_from(&settings).unwrap_err(), ProjectionError::RootNotDictionary);
}

#[test]
fn section_must_be_a_dictionary() {
    let settings = tree(vec![
        ("startup", dict(vec![])),
        ("runtime-global", node(PropertyValue::Bool(true))),
        ("runtime-per-user", dict(vec![])),
    ]);
    assert_eq!(
        ModSettings::try_from(&settings).unwrap_err(),
        ProjectionError::SectionNotDictionary("runtime-global".to_owned())
    );
}

fn project_one(value: Property) -> Result<ModSettings, ProjectionError> {
    let settings = tree(vec![
        ("startup", dict(vec![("ok", setting(node(PropertyValue::Bool(true)))), ("bad", value)])),
        ("runtime-global", dict(vec![])),
        ("runtime-per-user", dict(vec![])),
    ]);
    ModSettings::try_from(&settings)
}

#[test]
fn malformed_settings_are_named() {
    let cases = vec![
        (node(PropertyValue::Integer(1)), SettingError::NotDictionary),
        (dict(vec![("other", node(PropertyValue::Empty))]), SettingError::MissingValue),
        (setting(node(PropertyValue::Empty)), SettingError::InvalidValueType),
        (setting(node(PropertyValue::List(vec![]))), SettingError::InvalidValueType),
        (
            setting(dict(vec![("r", node(PropertyValue::Double(0)))])),
            SettingError::MissingColorChannel(ColorChannel::Green),
        ),
        (
            setting(dict(vec![])),
            SettingError::MissingColorChannel(ColorChannel::Red),
        ),
        (
            setting(dict(vec![
                ("r", node(PropertyValue::Double(0))),
                ("g", node(PropertyValue::Double(0))),
                ("b", node(PropertyValue::Integer(1))),
                ("a", node(PropertyValue::Double(0))),
            ])),
            SettingError::ColorChannelNotNumber(ColorChannel::Blue),
        ),
    ];
    for (value, error) in cases {
        assert_eq!(
            project_one(value).unwrap_err(),
            ProjectionError::InvalidSetting("bad".to_owned(), error)
        );
    }
}

#[test]
fn color_channels_are_read_independently() {
    let color = dict(vec![
        ("a", node(PropertyValue::Double(4))),
        ("b", node(PropertyValue::Double(3))),
        ("g", node(PropertyValue::Double(2))),
        ("r", node(PropertyValue::Double(1))),
    ]);
    let value = ModSettingsValue::try_from(&setting(color)).expect("a color");
    assert_eq!(value, ModSettingsValue::Color { r: 1, g: 2, b: 3, a: 4 });
}

#[test]
fn setting_values_of_each_kind() {
    assert_eq!(
        ModSettingsValue::try_from(&setting(node(PropertyValue::Integer(9)))),
        Ok(ModSettingsValue::Integer(9))
    );
    assert_eq!(
        ModSettingsValue::try_from(&setting(node(PropertyValue::Double(7)))),
        Ok(ModSettingsValue::Number(7))
    );
    assert_eq!(
        ModSettingsValue::try_from(&setting(node(PropertyValue::String("s".to_owned())))),
        Ok(ModSettingsValue::String("s".to_owned()))
    );
}
