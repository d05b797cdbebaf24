use gunnyscript::ValueType;

fn b(t: ValueType) -> Box<ValueType> {
    Box::new(t)
}

#[test]
fn relaxed_type_equality() {
    assert!(ValueType::Bool.relaxed_eq(&ValueType::Bool));
    assert!(!ValueType::Bool.relaxed_eq(&ValueType::Signed));
    assert!(ValueType::Unknown.relaxed_eq(&ValueType::Date));
    assert!(ValueType::Date.relaxed_eq(&ValueType::Unknown));
    assert!(ValueType::Option(b(ValueType::String)).relaxed_eq(&ValueType::String));
    assert!(ValueType::Option(b(ValueType::Unknown)).relaxed_eq(&ValueType::Option(b(ValueType::Fixed))));
    assert!(ValueType::Array(b(ValueType::Unknown)).relaxed_eq(&ValueType::Array(b(ValueType::Bool))));
    assert!(!ValueType::Array(b(ValueType::Bool)).relaxed_eq(&ValueType::StringMap(b(ValueType::Bool))));
    assert!(!ValueType::StringMap(b(ValueType::Bool)).relaxed_eq(&ValueType::StringMap(b(ValueType::Signed))));
}
