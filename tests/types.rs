use micrograd_rust::engine::ValueWrapper;
use std::any::{Any, TypeId};

#[test]
fn is_type_test() {
    let string = "string_test".to_string();
    let str_slice = "str_test";
    let integer = 42;

    //String
    assert!(TypeId::of::<String>() == (&string as &dyn Any).type_id());
    assert!(!(TypeId::of::<&str>() == (&string as &dyn Any).type_id()));

    //string literal
    assert!(TypeId::of::<&str>() == (&str_slice as &dyn Any).type_id());
    assert!(!(TypeId::of::<String>() == (&str_slice as &dyn Any).type_id()));

    //integer
    assert!(TypeId::of::<i32>() == (&integer as &dyn Any).type_id());
    assert!(!(TypeId::of::<u32>() == (&integer as &dyn Any).type_id()));
}

#[test]
fn handles_compare_by_identity() {
    assert_eq!(ValueWrapper(3), ValueWrapper(3));
    assert_ne!(ValueWrapper(3), ValueWrapper(4));
}
