use dswt::{Algorithm, PayloadType};

#[test]
fn test_algorithm_display() {
    assert_eq!(Algorithm::HS256.to_string(), "HS256");
}

#[test]
fn test_algorithm_default() {
    let algorithm: Algorithm = Default::default();
    assert_eq!(algorithm, Algorithm::HS256);
}

#[test]
fn test_algorithm_from_str_valid() {
    let algorithm: Algorithm = "HS256".into();
    assert_eq!(algorithm, Algorithm::HS256);
}

#[test]
fn test_algorithm_from_str_invalid() {
    let algorithm: Algorithm = "invalid".into();
    assert_eq!(algorithm, Algorithm::HS256);
}

#[test]
fn algorithm_lookup_is_strict() {
    assert_eq!(Algorithm::from_name("HS256"), Some(Algorithm::HS256));
    assert_eq!(Algorithm::from_name("HS512"), None);
    assert_eq!(Algorithm::from_name("hs256"), None);
    assert_eq!(Algorithm::from_name(""), None);
}

#[test]
fn payload_type_names() {
    assert_eq!(PayloadType::UUID.to_string(), "uuid");
    assert_eq!(PayloadType::String.to_string(), "string");
    assert_eq!(PayloadType::Int.to_string(), "int");
    assert_eq!(PayloadType::Float.to_string(), "float");
    assert_eq!(PayloadType::Bool.to_string(), "bool");
    let t: PayloadType = "float".parse().unwrap();
    assert_eq!(t, PayloadType::Float);
    assert_eq!(PayloadType::from_name("bool"), Some(PayloadType::Bool));
    let bad: Result<PayloadType, String> = "double".parse();
    assert_eq!(bad, Err("Invalid PayloadType: double".to_string()));
    assert_eq!(PayloadType::parse("UUID"), Err("Invalid PayloadType: UUID".to_string()));
    assert_eq!(PayloadType::parse("uuid"), Ok(PayloadType::UUID));
}
