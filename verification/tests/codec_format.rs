use totem_of_ket::codec::{player_data_from_json, player_data_to_json};
use totem_of_ket::player::{LoadSaveFileError, PlayerData};

fn round_trip(name: &str, prays: u32) -> PlayerData {
    let before = PlayerData::new(String::from(name), prays);
    let text = player_data_to_json(&before);
    player_data_from_json(&text).expect("the written record must read back")
}

#[test]
fn writes_the_plain_format() {
    let d = PlayerData::new(String::from("Player"), 3);
    assert_eq!(player_data_to_json(&d), "{\"name\":\"Player\",\"prays\":3}");
}

#[test]
fn writes_zero_and_max() {
    let zero = PlayerData::new(String::from("A"), 0);
    assert_eq!(player_data_to_json(&zero), "{\"name\":\"A\",\"prays\":0}");
    let max = PlayerData::new(String::from("A"), u32::MAX);
    assert_eq!(player_data_to_json(&max), "{\"name\":\"A\",\"prays\":4294967295}");
}

#[test]
fn round_trip_keeps_both_fields() {
    let back = round_trip("Alice", 7);
    assert_eq!(back.name, "Alice");
    assert_eq!(back.prays, 7);
}

#[test]
fn round_trip_empty_name_and_zero() {
    let back = round_trip("", 0);
    assert_eq!(back.name, "");
    assert_eq!(back.prays, 0);
}

#[test]
fn round_trip_escaped_characters() {
    let name = "quo\"te back\\slash\nnew\tline\u{1}\u{1f}端";
    let back = round_trip(name, 42);
    assert_eq!(back.name, name);
    assert_eq!(back.prays, 42);
}

#[test]
fn round_trip_counter_top() {
    let back = round_trip("Max", u32::MAX);
    assert_eq!(back.prays, u32::MAX);
}

#[test]
fn escapes_are_written_as_json() {
    let d = PlayerData::new(String::from("a\"b\\c\nd\u{1}"), 0);
    let text = player_data_to_json(&d);
    assert_eq!(text, "{\"name\":\"a\\\"b\\\\c\\nd\\u0001\",\"prays\":0}");
}

#[test]
fn reads_the_loaded_example() {
    let d = player_data_from_json("{\"name\":\"Alice\",\"prays\":7}").expect("well-formed");
    assert_eq!(d.name, "Alice");
    assert_eq!(d.prays, 7);
}

#[test]
fn reads_blanks_and_either_member_order() {
    let d = player_data_from_json(" {\n\t\"prays\" : 7 ,\r\n \"name\" : \"Alice\" } ")
        .expect("well-formed");
    assert_eq!(d.name, "Alice");
    assert_eq!(d.prays, 7);
}

#[test]
fn reads_unicode_escapes() {
    let d = player_data_from_json("{\"name\":\"\\u0041\\u00e9\",\"prays\":0}").expect("well-formed");
    assert_eq!(d.name, "Aé");
}

#[test]
fn rejects_malformed_records() {
    let bad = [
        "",
        "   ",
        "{}",
        "{\"name\":\"Alice\"}",
        "{\"prays\":7}",
        "{\"name\":\"Alice\",\"prays\":7",
        "{\"name\":\"Alice\",\"prays\":7}x",
        "{\"name\":\"Alice\",\"prays\":07}",
        "{\"name\":\"Alice\",\"prays\":-1}",
        "{\"name\":\"Alice\",\"prays\":4294967296}",
        "{\"name\":\"Alice\",\"prays\":99999999999999999999}",
        "{\"name\":\"Alice\",\"prays\":\"7\"}",
        "{\"name\":Alice,\"prays\":7}",
        "{\"name\":\"Alice\",\"name\":\"Bob\"}",
        "{\"name\":\"Alice\",\"prays\":7,\"extra\":1}",
        "{\"title\":\"Alice\",\"prays\":7}",
        "{\"name\":\"Ali",
        "{\"name\":\"\\x41\",\"prays\":7}",
        "{\"name\":\"\\ud800\",\"prays\":7}",
        "{\"name\":\"\\u12\",\"prays\":7}",
        "[\"name\",\"prays\"]",
    ];
    for text in bad {
        match player_data_from_json(text) {
            Err(LoadSaveFileError::JsonError) => {},
            other => panic!("{:?} was read as {:?}", text, other.map(|d| (d.name, d.prays))),
        }
    }
}

#[test]
fn rejects_bare_control_characters() {
    let text = "{\"name\":\"a\u{1}b\",\"prays\":0}";
    assert!(player_data_from_json(text).is_err());
}

#[test]
fn written_records_are_json_for_other_readers() {
    let d = PlayerData::new(String::from("quo\"te \\ line\n\u{2} 端"), 123);
    let text = player_data_to_json(&d);
    let value: serde_json::Value = serde_json::from_str(&text).expect("valid JSON");
    assert_eq!(value["name"].as_str(), Some("quo\"te \\ line\n\u{2} 端"));
    assert_eq!(value["prays"].as_u64(), Some(123));
}

#[test]
fn reads_what_other_writers_wrote() {
    let mut map = serde_json::Map::new();
    map.insert(
        String::from("name"),
        serde_json::Value::String(String::from("Se\u{1}r\"de")),
    );
    map.insert(String::from("prays"), serde_json::Value::from(4294967295u32));
    let text = serde_json::to_string(&serde_json::Value::Object(map)).expect("serde_json writes");
    let d = player_data_from_json(&text).expect("well-formed");
    assert_eq!(d.name, "Se\u{1}r\"de");
    assert_eq!(d.prays, u32::MAX);
}
