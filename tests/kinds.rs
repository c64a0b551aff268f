use bipf::{Type, Typed, Value};
use std::collections::HashMap;

#[test]
fn get_string_type_int() {
    let i = Type::String as i32;
    assert_eq!(i, 0);
}

#[test]
fn get_string_type() -> Result<(), String> {
    let s = "this is a string".to_string();
    let t = s.to_type();
    match t {
        Type::String => Ok(()),
        _ => Err(String::from("type is not a string")),
    }
}

#[test]
fn get_buffer_type_int() {
    let i = Type::Buffer as i32;
    assert_eq!(i, 1);
}

#[test]
fn get_buffer_type() -> Result<(), String> {
    let b = vec![0; 5];
    let t = b.to_type();
    match t {
        Type::Buffer => Ok(()),
        _ => Err(String::from("type is not a buffer (vector)")),
    }
}

#[test]
fn get_integer_type_int() {
    let i = Type::Integer as i32;
    assert_eq!(i, 2);
}

#[test]
fn get_integer_type() -> Result<(), String> {
    let i = 0;
    let t = i.to_type();
    match t {
        Type::Integer => Ok(()),
        _ => Err(String::from("type is not an integer")),
    }
}

#[test]
fn get_double_type_int() {
    let d = Type::Double as i32;
    assert_eq!(d, 3);
}

#[test]
fn get_double_type() -> Result<(), String> {
    let d = 1.0;
    let t = Value::Double(f64::to_bits(d)).to_type();
    match t {
        Type::Double => Ok(()),
        _ => Err(String::from("type is not a double (f64)")),
    }
}

#[test]
fn get_array_type_int() {
    let a = Type::Array as i32;
    assert_eq!(a, 4);
}

#[test]
fn get_array_u8_type() -> Result<(), String> {
    let a: [u8; 5] = [0, 0, 0, 0, 0];
    let t = a.to_type();
    match t {
        Type::Array => Ok(()),
        _ => Err(String::from("type is not an array")),
    }
}

#[test]
fn get_array_str_type() -> Result<(), String> {
    let a = ["kyanite", "galactic", "mycelium"];
    let t = a.to_type();
    match t {
        Type::Array => Ok(()),
        _ => Err(String::from("type is not an array")),
    }
}

#[test]
fn get_object_type_int() {
    let o = Type::Object as i32;
    assert_eq!(o, 5);
}

#[test]
fn get_object_type() -> Result<(), String> {
    let mut hm = HashMap::new();
    hm.insert("first".to_string(), 25);
    hm.insert("second".to_string(), 50);
    let t = hm.to_type();
    match t {
        Type::Object => Ok(()),
        _ => Err(String::from("type is not an object (hashmap)")),
    }
}

#[test]
fn get_boolnull_type_int() {
    let b = Type::Boolnull as i32;
    assert_eq!(b, 6);
}

#[test]
fn get_boolnull_some_type() -> Result<(), String> {
    let os = Some(true);
    let t = os.to_type();
    match t {
        Type::Boolnull => Ok(()),
        _ => Err(String::from("type is not a boolnull (option<bool>)")),
    }
}

#[test]
fn get_boolnull_none_type() -> Result<(), String> {
    let on = None;
    let t = on.to_type();
    match t {
        Type::Boolnull => Ok(()),
        _ => Err(String::from("type is not a boolnull (option<bool>)")),
    }
}

#[test]
fn tags_follow_variant_order() {
    assert_eq!(Type::Reserved.tag(), 7);
    assert_eq!(Type::Object.tag(), 5);
    assert_eq!(Type::from_tag(84), Type::Array);
    assert_eq!(Type::from_tag(15), Type::Reserved);
}
