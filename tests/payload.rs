use dswt::{PayloadItem, PayloadType, TokenError};

#[test]
fn test_payload_item_new() {
    let item = PayloadItem::new("name", "John");
    assert_eq!(item.key, "name");
    assert_eq!(item.value, "John");
}

#[test]
fn test_payload_item_display() {
    let item = PayloadItem::new("age", 25);
    assert_eq!(item.to_string(), "age=25");
}

#[test]
fn test_payload_item_from_str() {
    let item: PayloadItem = "city=New York".parse().unwrap();
    assert_eq!(item.key, "city");
    assert_eq!(item.value, "New York");
}

#[test]
fn test_payload_item_from_str_invalid() {
    let item: Result<PayloadItem, _> = "invalid".parse();
    assert!(item.is_err());
}

#[test]
fn typed_entry_text_and_reading() {
    let item = PayloadItem::typed("age", PayloadType::Int, "25");
    assert_eq!(item.to_string(), "age:int=25");
    let back: PayloadItem = "age:int=25".parse().unwrap();
    assert_eq!(back, item);
    assert_eq!(back.kind, Some(PayloadType::Int));
}

#[test]
fn entry_reading_edge_cases() {
    let v: PayloadItem = "a=b=c".parse().unwrap();
    assert_eq!(v.key, "a");
    assert_eq!(v.value, "b=c");
    let empty_value: PayloadItem = "a=".parse().unwrap();
    assert_eq!(empty_value.value, "");
    let colon_in_value: PayloadItem = "t=12:30".parse().unwrap();
    assert_eq!(colon_in_value.value, "12:30");
    assert_eq!(colon_in_value.kind, None);
    let no_key: Result<PayloadItem, TokenError> = "=v".parse();
    assert_eq!(no_key, Err(TokenError::MalformedToken));
    let bad_type: Result<PayloadItem, TokenError> = "a:double=1".parse();
    assert_eq!(bad_type, Err(TokenError::MalformedToken));
    let comma: Result<PayloadItem, TokenError> = "a=1,2".parse();
    assert_eq!(comma, Err(TokenError::MalformedToken));
}
