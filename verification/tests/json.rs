use serde_json::{Number, Value};
use whiteboard::history::{History, Timestamp};

fn text_of(points: &[(i32, i32)], color: u32) -> String {
    let mut history = History::new();
    history.add_at(Timestamp { nanos: 1 }, points, color);
    String::from_utf8(history.head().unwrap().as_json()).unwrap()
}

fn value_of(points: &[(i32, i32)], color: u32) -> Value {
    let mut data = Vec::new();
    for (x, y) in points {
        let mut point = serde_json::Map::new();
        point.insert("x".to_string(), Value::Number(Number::from(*x)));
        point.insert("y".to_string(), Value::Number(Number::from(*y)));
        data.push(Value::Object(point));
    }
    let mut object = serde_json::Map::new();
    object.insert("color".to_string(), Value::Number(Number::from(color)));
    object.insert("data".to_string(), Value::Array(data));
    Value::Object(object)
}

#[test]
fn stroke_without_points_as_json() {
    assert_eq!(text_of(&[], 0), "{\"color\":0,\"data\":[]}");
}

#[test]
fn stroke_with_one_point_as_json() {
    assert_eq!(text_of(&[(1, 2)], 255), "{\"color\":255,\"data\":[{\"x\":1,\"y\":2}]}");
}

#[test]
fn stroke_with_points_as_json() {
    assert_eq!(
        text_of(&[(10, -20), (0, 305)], 16711680),
        "{\"color\":16711680,\"data\":[{\"x\":10,\"y\":-20},{\"x\":0,\"y\":305}]}"
    );
}

#[test]
fn extreme_numbers_as_json() {
    assert_eq!(
        text_of(&[(i32::MIN, i32::MAX)], u32::MAX),
        "{\"color\":4294967295,\"data\":[{\"x\":-2147483648,\"y\":2147483647}]}"
    );
}

#[test]
fn json_text_reads_back_as_the_same_value() {
    let points = [(3, 4), (-5, 6), (0, 0), (i32::MIN, i32::MAX), (1000000, -1)];
    let parsed: Value = serde_json::from_str(&text_of(&points, 0x808000)).unwrap();
    assert_eq!(parsed, value_of(&points, 0x808000));
    assert_eq!(parsed["color"], Value::Number(Number::from(0x808000u32)));
    assert_eq!(parsed["data"].as_array().unwrap().len(), 5);
}

#[test]
fn json_text_is_what_the_value_prints() {
    let points = [(3, 4), (-5, 6), (12, -34)];
    assert_eq!(text_of(&points, 77), serde_json::to_string(&value_of(&points, 77)).unwrap());
    assert_eq!(text_of(&[], 77), serde_json::to_string(&value_of(&[], 77)).unwrap());
}
