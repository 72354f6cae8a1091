use icarus_editor::json::{JsonNumber, JsonValue};
use icarus_editor::json_fmt::{frame_characters_file, to_string_tabbed_crlf};
use icarus_editor::model::{MetaResourceEntry, ProfileSave, TalentEntry, CURRENCY_MAX};
use icarus_editor::owner::TalentOwner;

fn profile() -> ProfileSave {
    ProfileSave {
        user_id: "7656".to_string(),
        meta_resources: vec![MetaResourceEntry { meta_row: "Credits".to_string(), count: 10 }],
        unlocked_flags: vec![],
        talents: vec![TalentEntry { row_name: "Workshop_Bench".to_string(), rank: 1 }],
        next_chr_slot: 1,
        data_version: 3,
        extra: vec![],
    }
}

#[test]
fn outer_layout_inlines_number_arrays() {
    let doc = JsonValue::Object(vec![
        ("Flags".to_string(), JsonValue::Array(vec![
            JsonValue::Number(JsonNumber::PosInt(86)),
            JsonValue::Number(JsonNumber::NegInt(-5)),
        ])),
        ("Name".to_string(), JsonValue::String("Say \"hi\"".to_string())),
        ("Empty".to_string(), JsonValue::Array(vec![])),
        ("Nested".to_string(), JsonValue::Array(vec![JsonValue::Object(vec![]), JsonValue::Bool(true)])),
        ("Nothing".to_string(), JsonValue::Null),
    ]);
    assert_eq!(
        to_string_tabbed_crlf(&doc),
        "{\r\n\t\"Flags\": [ 86, -5 ],\r\n\t\"Name\": \"Say \\\"hi\\\"\",\r\n\t\"Empty\": [],\r\n\t\"Nested\": [\r\n\t\t{},\r\n\t\ttrue\r\n\t],\r\n\t\"Nothing\": null\r\n}"
    );
}

#[test]
fn characters_file_wraps_the_serialized_characters() {
    let inner = vec!["{\n\t\"A\": 1\n}".to_string(), "{}".to_string()];
    assert_eq!(
        frame_characters_file(&inner),
        "{\r\n\t\"Characters.json\": [\r\n\t\t\"{\\n\\t\\\"A\\\": 1\\n}\",\r\n\t\t\"{}\"\r\n\t]\r\n}"
    );
    assert_eq!(frame_characters_file(&[]), "{\r\n\t\"Characters.json\": []\r\n}");
}

#[test]
fn currency_reads_back_what_was_written() {
    let mut p = profile();
    assert_eq!(p.currency("Credits"), 10);
    assert_eq!(p.currency("Exotic"), 0);
    p.set_currency("Exotic", 42);
    assert_eq!(p.currency("Exotic"), 42);
    assert_eq!(p.currency("Credits"), 10);
    p.set_currency("Credits", 5_000_000);
    assert_eq!(p.currency("Credits"), CURRENCY_MAX);
    p.set_currency("Credits", -3);
    assert_eq!(p.currency("Credits"), 0);
    assert_eq!(p.meta_resources.len(), 2);
}

#[test]
fn profile_talents_read_after_write() {
    let mut p = profile();
    assert!(p.has_talent("Workshop_Bench"));
    p.set_talent("Workshop_Bench", false);
    assert!(!p.has_talent("Workshop_Bench"));
    p.set_talent("Workshop_Suit", true);
    assert!(p.has_talent("Workshop_Suit"));
    assert_eq!(p.talent_rank("Workshop_Suit"), Some(1));
    p.set_talent_rank("Workshop_Suit", 3);
    assert_eq!(p.talent_rank("Workshop_Suit"), Some(3));
}
