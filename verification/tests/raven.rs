use meshtastic_serial_udp::crypto::{self, expand_psk};
use meshtastic_serial_udp::json::{deep_merge, JsonValue};
use meshtastic_serial_udp::raven::{
    load_raven_channels, load_raven_channels_from, merge_channels, merge_channels_checked,
    modem_preset_name,
    parse_namekey, NamekeyError, ParsedRavenChannel, RavenError, ROLE_PRIMARY, ROLE_SECONDARY,
};

const SAMPLE_RAVEN_CONF: &str = r#"{
    "debug": 0,
    "role": "client_mute",
    "channels": [
        { "namekey": "AREDN og==", "telemetry": true, "meshtastic": true },
        { "namekey": "LongFast AQ==", "telemetry": true, "meshtastic": true },
        { "namekey": "MeshCore izOH6cXN6mrJ5e26oRXNcg==" },
        { "namekey": "OK-WX Uw==", "telemetry": true, "meshtastic": true },
        { "namekey": "PMesh DcYgnMhTKG64bXt+n8gLCzK57IpEhRnhYwpL4xowu9Y=", "telemetry": true, "meshtastic": true }
    ]
}"#;

fn to_json(v: &serde_json::Value) -> JsonValue {
    match v {
        serde_json::Value::Null => JsonValue::Null,
        serde_json::Value::Bool(b) => JsonValue::Bool(*b),
        serde_json::Value::Number(n) => JsonValue::Number(n.to_string()),
        serde_json::Value::String(s) => JsonValue::Str(s.clone()),
        serde_json::Value::Array(a) => JsonValue::Array(a.iter().map(to_json).collect()),
        serde_json::Value::Object(m) => {
            JsonValue::Object(m.iter().map(|(k, v)| (k.clone(), to_json(v))).collect())
        }
    }
}

fn parse(text: &str) -> JsonValue {
    to_json(&serde_json::from_str::<serde_json::Value>(text).unwrap())
}

fn get<'a>(v: &'a JsonValue, key: &str) -> Option<&'a JsonValue> {
    match v {
        JsonValue::Object(entries) => entries.iter().rev().find(|(k, _)| k == key).map(|(_, v)| v),
        _ => None,
    }
}

fn str_of(v: Option<&JsonValue>) -> Option<&str> {
    match v {
        Some(JsonValue::Str(s)) => Some(s.as_str()),
        _ => None,
    }
}

fn num_of(v: Option<&JsonValue>) -> Option<&str> {
    match v {
        Some(JsonValue::Number(s)) => Some(s.as_str()),
        _ => None,
    }
}

#[test]
fn test_parse_namekey_simple() {
    let parsed = parse_namekey("LongFast AQ==").unwrap();
    assert_eq!(parsed.name, "LongFast");
    assert_eq!(parsed.psk, vec![0x01]); // AQ== = [1]
}

#[test]
fn test_parse_namekey_16_byte_psk() {
    let parsed = parse_namekey("MeshCore izOH6cXN6mrJ5e26oRXNcg==").unwrap();
    assert_eq!(parsed.name, "MeshCore");
    assert_eq!(parsed.psk.len(), 16);
}

#[test]
fn test_parse_namekey_32_byte_psk() {
    let parsed = parse_namekey("PMesh DcYgnMhTKG64bXt+n8gLCzK57IpEhRnhYwpL4xowu9Y=").unwrap();
    assert_eq!(parsed.name, "PMesh");
    assert_eq!(parsed.psk.len(), 32);
}

#[test]
fn test_parse_namekey_short_psk() {
    // og== decodes to [0xa2]: 1 byte
    let parsed = parse_namekey("AREDN og==").unwrap();
    assert_eq!(parsed.name, "AREDN");
    assert_eq!(parsed.psk, vec![0xa2]);
}

#[test]
fn test_parse_namekey_no_space() {
    assert!(parse_namekey("nospace").is_err());
}

#[test]
fn test_parse_namekey_invalid_base64() {
    assert!(parse_namekey("name !!!invalid!!!").is_err());
}

#[test]
fn parse_namekey_errors_are_distinguished() {
    assert_eq!(parse_namekey("nospace").err(), Some(NamekeyError::NoSeparator));
    assert_eq!(parse_namekey("name !!!").err(), Some(NamekeyError::InvalidBase64));
}

#[test]
fn parse_namekey_splits_at_last_space() {
    let parsed = parse_namekey("My Chan Name AQ==").unwrap();
    assert_eq!(parsed.name, "My Chan Name");
    assert_eq!(parsed.psk, vec![1]);
    let empty_psk = parse_namekey("Quiet ").unwrap();
    assert_eq!(empty_psk.name, "Quiet");
    assert!(empty_psk.psk.is_empty());
    let unicode = parse_namekey("Café AQ==").unwrap();
    assert_eq!(unicode.name, "Café");
}

#[test]
fn test_load_raven_channels_missing_file() {
    // A configuration file that does not exist is handed over as `None`.
    let result = load_raven_channels_from(None).unwrap();
    assert!(result.is_none());
}

#[test]
fn test_load_raven_channels_valid() {
    let result = load_raven_channels_from(Some(parse(SAMPLE_RAVEN_CONF))).unwrap();
    let channels = result.unwrap();
    assert_eq!(channels.len(), 5);
    assert_eq!(channels[0].name, "AREDN");
    assert_eq!(channels[1].name, "LongFast");
    assert_eq!(channels[2].name, "MeshCore");
    assert_eq!(channels[3].name, "OK-WX");
    assert_eq!(channels[4].name, "PMesh");
}

#[test]
fn load_rejects_config_of_wrong_shape() {
    assert_eq!(
        load_raven_channels_from(Some(parse(r#"{"channels": 5}"#))).err(),
        Some(RavenError::InvalidConfig)
    );
    assert_eq!(
        load_raven_channels_from(Some(parse(r#"{"channels": [{"name": "x"}]}"#))).err(),
        Some(RavenError::InvalidConfig)
    );
    assert_eq!(
        load_raven_channels_from(Some(parse(r#""text""#))).err(),
        Some(RavenError::InvalidConfig)
    );
    assert_eq!(
        load_raven_channels_from(Some(parse(r#"{"channels": [{"namekey": "bad"}]}"#))).err(),
        Some(RavenError::InvalidNamekey(NamekeyError::NoSeparator))
    );
}

#[test]
fn load_without_channels_key_gives_empty_list() {
    let channels = load_raven_channels_from(Some(parse(r#"{"debug": 1}"#)))
        .unwrap()
        .unwrap();
    assert!(channels.is_empty());
}

#[test]
fn load_accepts_sequence_forms() {
    // serde reads a struct from an array of its fields, in order.
    let channels = load_raven_channels_from(Some(parse(r#"[[["A AQ=="]]]"#)))
        .unwrap()
        .unwrap();
    assert_eq!(channels.len(), 1);
    assert_eq!(channels[0].name, "A");
    assert!(load_raven_channels_from(Some(parse("[]"))).unwrap().unwrap().is_empty());
    assert!(load_raven_channels_from(Some(parse("[[], []]"))).is_err());
}

#[test]
fn test_merge_no_raven() {
    let device = vec![crypto::channel_key_from_proto(0, "LongFast", &[1])];
    let result = merge_channels(&device, &[], 0);
    assert_eq!(result.channels.len(), 1);
    assert!(result.to_install.is_empty());
}

#[test]
fn test_merge_duplicate_same_psk() {
    let device = vec![crypto::channel_key_from_proto(0, "LongFast", &[1])];
    let raven = vec![ParsedRavenChannel { name: "LongFast".to_string(), psk: vec![1] }];
    let result = merge_channels(&device, &raven, 0);
    assert_eq!(result.channels.len(), 1);
    // Same PSK, no install needed.
    assert!(result.to_install.is_empty());
}

#[test]
fn test_merge_duplicate_different_psk() {
    let device = vec![crypto::channel_key_from_proto(0, "LongFast", &[1])];
    let raven = vec![ParsedRavenChannel { name: "LongFast".to_string(), psk: vec![2] }];
    let result = merge_channels(&device, &raven, 0);
    assert_eq!(result.channels.len(), 1);
    assert_eq!(result.to_install.len(), 1);
    assert_eq!(result.to_install[0].index, 0);
    assert_eq!(result.to_install[0].role, 1); // PRIMARY kept
}

#[test]
fn test_merge_new_channel() {
    let device = vec![crypto::channel_key_from_proto(0, "LongFast", &[1])];
    let raven = vec![ParsedRavenChannel { name: "AREDN".to_string(), psk: vec![0xa2] }];
    let result = merge_channels(&device, &raven, 0);
    assert_eq!(result.channels.len(), 2);
    assert_eq!(result.channels[1].name, "AREDN");
    assert_eq!(result.channels[1].index, 1);
    assert_eq!(result.to_install.len(), 1);
    assert_eq!(result.to_install[0].index, 1);
    assert_eq!(result.to_install[0].role, 2); // SECONDARY
}

#[test]
fn test_merge_mixed() {
    let device = vec![
        crypto::channel_key_from_proto(0, "LongFast", &[1]),
        crypto::channel_key_from_proto(1, "AREDN", &[0xa2]),
    ];
    let raven = vec![
        ParsedRavenChannel {
            name: "AREDN".to_string(),
            psk: vec![0xa3], // Different PSK
        },
        ParsedRavenChannel { name: "NewChan".to_string(), psk: vec![5] },
    ];
    let result = merge_channels(&device, &raven, 0);
    assert_eq!(result.channels.len(), 3);
    // AREDN updated at index 1
    assert_eq!(result.channels[1].name, "AREDN");
    assert_eq!(result.channels[1].index, 1);
    // NewChan added at index 2
    assert_eq!(result.channels[2].name, "NewChan");
    assert_eq!(result.channels[2].index, 2);
    assert_eq!(result.to_install.len(), 2);
}

#[test]
fn test_merge_empty_name_primary_matches_preset() {
    // Device reports primary channel with empty name (standard Meshtastic behavior)
    let device = vec![crypto::channel_key_from_proto(0, "", &[1])];
    let raven = vec![ParsedRavenChannel { name: "LongFast".to_string(), psk: vec![1] }];
    // modem_preset=0 (LONG_FAST) -> default name "LongFast"
    let result = merge_channels(&device, &raven, 0);
    assert_eq!(result.channels.len(), 1, "should not duplicate");
    assert!(result.to_install.is_empty(), "same PSK, no install needed");
}

#[test]
fn test_merge_empty_name_primary_wrong_preset_no_match() {
    // Device reports primary channel with empty name, but modem preset is ShortFast
    let device = vec![crypto::channel_key_from_proto(0, "", &[1])];
    let raven = vec![ParsedRavenChannel { name: "LongFast".to_string(), psk: vec![1] }];
    // modem_preset=6 (SHORT_FAST) -> default name "ShortFast", not "LongFast"
    let result = merge_channels(&device, &raven, 6);
    assert_eq!(result.channels.len(), 2, "should add LongFast as new channel");
    assert_eq!(result.to_install.len(), 1);
}

#[test]
fn merge_updated_channel_carries_raven_key_and_settings() {
    let device = vec![
        crypto::channel_key_from_proto(0, "", &[1]),
        crypto::channel_key_from_proto(3, "Ops", &[9]),
    ];
    let raven = vec![
        ParsedRavenChannel { name: "LongFast".to_string(), psk: vec![4] },
        ParsedRavenChannel { name: "Ops".to_string(), psk: vec![9] },
        ParsedRavenChannel { name: "Extra".to_string(), psk: vec![6] },
    ];
    let result = merge_channels(&device, &raven, 0);
    assert_eq!(result.channels.len(), 3);
    assert_eq!(result.channels[0].name, "LongFast");
    assert_eq!(result.channels[0].key, expand_psk(&[4]));
    assert_eq!(result.channels[0].hash, crypto::channel_hash("LongFast", &expand_psk(&[4])));
    assert_eq!(result.channels[1].key, expand_psk(&[9]));
    assert_eq!(result.channels[2].index, 4);
    assert_eq!(result.to_install.len(), 2);
    assert_eq!(result.to_install[0].index, 0);
    assert_eq!(result.to_install[0].role, ROLE_PRIMARY);
    let s0 = result.to_install[0].settings.as_ref().unwrap();
    assert_eq!(s0.name, "LongFast");
    assert_eq!(s0.psk, vec![4]);
    assert_eq!(result.to_install[1].index, 4);
    assert_eq!(result.to_install[1].role, ROLE_SECONDARY);
}

#[test]
fn modem_preset_names() {
    assert_eq!(modem_preset_name(0), "LongFast");
    assert_eq!(modem_preset_name(1), "LongSlow");
    assert_eq!(modem_preset_name(2), "VeryLongSlow");
    assert_eq!(modem_preset_name(3), "MediumSlow");
    assert_eq!(modem_preset_name(4), "MediumFast");
    assert_eq!(modem_preset_name(5), "ShortSlow");
    assert_eq!(modem_preset_name(6), "ShortFast");
    assert_eq!(modem_preset_name(7), "LongModerate");
    assert_eq!(modem_preset_name(8), "ShortTurbo");
    assert_eq!(modem_preset_name(9), "LongTurbo");
    assert_eq!(modem_preset_name(10), "LongFast");
    assert_eq!(modem_preset_name(-1), "LongFast");
}

// --- deep_merge tests ---

#[test]
fn test_deep_merge_replaces_array() {
    let mut base = parse(r#"{ "channels": [ { "namekey": "A aa==" }, { "namekey": "B bb==" } ] }"#);
    let over = parse(r#"{ "channels": [ { "namekey": "C cc==" } ] }"#);
    deep_merge(&mut base, &over);
    let arr = match get(&base, "channels") {
        Some(JsonValue::Array(a)) => a,
        _ => panic!("channels is not an array"),
    };
    assert_eq!(arr.len(), 1);
    assert_eq!(str_of(get(&arr[0], "namekey")), Some("C cc=="));
}

#[test]
fn test_deep_merge_null_deletes_key() {
    let mut base = parse(r#"{ "debug": 1, "role": "client_mute" }"#);
    let over = parse(r#"{ "debug": null }"#);
    deep_merge(&mut base, &over);
    assert!(get(&base, "debug").is_none());
    assert_eq!(str_of(get(&base, "role")), Some("client_mute"));
}

#[test]
fn test_deep_merge_objects_recurse() {
    let mut base = parse(r#"{ "meshtastic": { "address": "127.0.0.1", "port": 4403 } }"#);
    let over = parse(r#"{ "meshtastic": { "port": 9999 } }"#);
    deep_merge(&mut base, &over);
    let m = get(&base, "meshtastic").unwrap();
    assert_eq!(str_of(get(m, "address")), Some("127.0.0.1"));
    assert_eq!(num_of(get(m, "port")), Some("9999"));
}

#[test]
fn test_deep_merge_empty_override() {
    let mut base = parse(r#"{ "debug": 0, "role": "client_mute" }"#);
    let over = parse("{}");
    deep_merge(&mut base, &over);
    assert_eq!(num_of(get(&base, "debug")), Some("0"));
    assert_eq!(str_of(get(&base, "role")), Some("client_mute"));
}

#[test]
fn test_deep_merge_adds_new_key() {
    let mut base = parse(r#"{ "debug": 0 }"#);
    let over = parse(r#"{ "newkey": "value" }"#);
    deep_merge(&mut base, &over);
    assert_eq!(num_of(get(&base, "debug")), Some("0"));
    assert_eq!(str_of(get(&base, "newkey")), Some("value"));
}

#[test]
fn test_deep_merge_new_nested_object() {
    let mut base = parse(r#"{ "debug": 0 }"#);
    let over = parse(r#"{ "meshtastic": { "address": "10.0.0.1" } }"#);
    deep_merge(&mut base, &over);
    let m = get(&base, "meshtastic").unwrap();
    assert_eq!(str_of(get(m, "address")), Some("10.0.0.1"));
}

#[test]
fn deep_merge_object_over_scalar_starts_fresh() {
    let mut base = parse(r#"{ "m": 5, "keep": true }"#);
    let over = parse(r#"{ "m": { "a": 1 } }"#);
    deep_merge(&mut base, &over);
    let m = get(&base, "m").unwrap();
    assert_eq!(num_of(get(m, "a")), Some("1"));
    assert!(matches!(get(&base, "keep"), Some(JsonValue::Bool(true))));
}

#[test]
fn deep_merge_non_objects_leave_base() {
    let mut base = parse(r#"[1, 2]"#);
    let over = parse(r#"{ "a": 1 }"#);
    deep_merge(&mut base, &over);
    assert!(matches!(&base, JsonValue::Array(a) if a.len() == 2));
    let mut base2 = parse(r#"{ "a": 1 }"#);
    deep_merge(&mut base2, &parse("[3]"));
    assert_eq!(num_of(get(&base2, "a")), Some("1"));
}

#[test]
fn deep_merge_twice_same_as_once() {
    let over = parse(r#"{ "a": null, "b": { "c": 2, "d": null }, "e": [1] }"#);
    let mut once = parse(r#"{ "a": 1, "b": { "d": 4, "f": 5 }, "g": 7 }"#);
    deep_merge(&mut once, &over);
    let mut twice = parse(r#"{ "a": 1, "b": { "d": 4, "f": 5 }, "g": 7 }"#);
    deep_merge(&mut twice, &over);
    deep_merge(&mut twice, &over);
    let b1 = get(&once, "b").unwrap();
    let b2 = get(&twice, "b").unwrap();
    assert!(get(&once, "a").is_none() && get(&twice, "a").is_none());
    assert_eq!(num_of(get(b1, "c")), num_of(get(b2, "c")));
    assert!(get(b1, "d").is_none() && get(b2, "d").is_none());
    assert_eq!(num_of(get(b2, "f")), Some("5"));
    assert_eq!(num_of(get(&twice, "g")), Some("7"));
}

// --- override loading tests ---

#[test]
fn test_load_with_override_missing_override() {
    // Override file doesn't exist: only the base channels are used.
    let result = load_raven_channels(Some(parse(SAMPLE_RAVEN_CONF)), None).unwrap();
    let channels = result.unwrap();
    assert_eq!(channels.len(), 5);
}

#[test]
fn test_load_with_override_replaces_channels() {
    let over = parse(
        r#"{
            "channels": [
                { "namekey": "AREDN og==" },
                { "namekey": "LongFast AQ==" },
                { "namekey": "MeshCore izOH6cXN6mrJ5e26oRXNcg==" },
                { "namekey": "OK-WX Uw==" },
                { "namekey": "PMesh DcYgnMhTKG64bXt+n8gLCzK57IpEhRnhYwpL4xowu9Y=" },
                { "namekey": "OK-Wide oA==" }
            ]
        }"#,
    );
    let result = load_raven_channels(Some(parse(SAMPLE_RAVEN_CONF)), Some(&over)).unwrap();
    let channels = result.unwrap();
    assert_eq!(channels.len(), 6);
    assert_eq!(channels[5].name, "OK-Wide");
    assert_eq!(channels[5].psk, vec![0xa0]);
}

#[test]
fn test_load_with_override_empty_object() {
    let over = parse("{}");
    let result = load_raven_channels(Some(parse(SAMPLE_RAVEN_CONF)), Some(&over)).unwrap();
    let channels = result.unwrap();
    assert_eq!(channels.len(), 5, "empty override should not change channels");
}

#[test]
fn test_load_with_override_non_object_ignored() {
    // Raven treats non-object overrides (e.g. an array) as no-op.
    let over = parse("[]");
    let result = load_raven_channels(Some(parse(SAMPLE_RAVEN_CONF)), Some(&over)).unwrap();
    let channels = result.unwrap();
    assert_eq!(channels.len(), 5, "array override should be ignored");
}

#[test]
fn merge_checked_reports_index_overflow() {
    let device = vec![crypto::channel_key_from_proto(u32::MAX, "Top", &[1])];
    let same = vec![ParsedRavenChannel { name: "Top".to_string(), psk: vec![2] }];
    let updated = merge_channels_checked(&device, &same, 0).unwrap();
    assert_eq!(updated.to_install.len(), 1);
    let new = vec![ParsedRavenChannel { name: "New".to_string(), psk: vec![2] }];
    assert!(merge_channels_checked(&device, &new, 0).is_none());
}

#[test]
fn merging_twice_installs_nothing_more() {
    let device = vec![
        crypto::channel_key_from_proto(0, "", &[1]),
        crypto::channel_key_from_proto(2, "AREDN", &[0xa2]),
    ];
    let raven = vec![
        ParsedRavenChannel { name: "AREDN".to_string(), psk: vec![0xa3] },
        ParsedRavenChannel { name: "LongFast".to_string(), psk: vec![2] },
        ParsedRavenChannel { name: "NewChan".to_string(), psk: vec![5] },
    ];
    let first = merge_channels(&device, &raven, 0);
    assert_eq!(first.to_install.len(), 3);
    let second = merge_channels(&first.channels, &raven, 0);
    assert!(second.to_install.is_empty());
    assert_eq!(second.channels.len(), first.channels.len());
    for (a, b) in second.channels.iter().zip(first.channels.iter()) {
        assert_eq!(a.index, b.index);
        assert_eq!(a.name, b.name);
        assert_eq!(a.key, b.key);
        assert_eq!(a.hash, b.hash);
    }
}
