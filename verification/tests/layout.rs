use icarus_editor::json::{JsonNumber, JsonValue};
use icarus_editor::json_fmt::to_string_tabbed_crlf;
use icarus_editor::table::captured_text;
use icarus_editor::texture::decode_block_compressed;

#[test]
fn integers_print_as_the_value_held() {
    let v = JsonValue::Array(vec![
        JsonValue::Number(JsonNumber::NegInt(-12)),
        JsonValue::Number(JsonNumber::NegInt(0)),
        JsonValue::Number(JsonNumber::PosInt(7)),
    ]);
    assert_eq!(to_string_tabbed_crlf(&v), "[ -12, 0, 7 ]");
}

#[test]
fn strings_are_escaped_by_the_fixed_table() {
    let v = JsonValue::String("a\"b\\c\nd\te/\u{1}".to_string());
    assert_eq!(to_string_tabbed_crlf(&v), "\"a\\\"b\\\\c\\nd\\te/\\u0001\"");
}

#[test]
fn line_feeds_follow_carriage_returns() {
    let v = JsonValue::Object(vec![
        ("Text".to_string(), JsonValue::String("two\nlines".to_string())),
        ("List".to_string(), JsonValue::Array(vec![JsonValue::Bool(true), JsonValue::Null])),
    ]);
    let out = to_string_tabbed_crlf(&v);
    let bytes = out.as_bytes();
    for (i, b) in bytes.iter().enumerate() {
        if *b == b'\n' {
            assert!(i > 0 && bytes[i - 1] == b'\r');
        }
    }
    assert_eq!(out, "{\r\n\t\"Text\": \"two\\nlines\",\r\n\t\"List\": [\r\n\t\ttrue,\r\n\t\tnull\r\n\t]\r\n}");
}

#[test]
fn captured_literal_is_unescaped_and_loses_its_marker() {
    assert_eq!(captured_text("[DNT] Rock\\'s \\\"edge\\\""), "Rock's \"edge\"");
    assert_eq!(captured_text("Plain"), "Plain");
}

#[test]
fn decoded_images_hold_four_bytes_per_pixel() {
    let bgra = vec![1u8, 2, 3, 4, 5, 6, 7, 8];
    let rgba = match decode_block_compressed("PF_B8G8R8A8", 2, 1, &bgra) {
        Ok(v) => v,
        Err(_) => panic!("expected pixels"),
    };
    assert_eq!(rgba, vec![3, 2, 1, 4, 7, 6, 5, 8]);
    let bc1 = vec![0u8; 8];
    let px = match decode_block_compressed("PF_DXT1", 3, 2, &bc1) {
        Ok(v) => v,
        Err(_) => panic!("expected pixels"),
    };
    assert_eq!(px.len(), 4 * 3 * 2);
}
