use zhc::short_names::trim_type_path;

// The inputs are the full type paths that std reports for an `i32`, a `&str`,
// an `f64`, a `Vec<i32>` and a struct local to a test function.

#[test]
fn test_type_name_of_val_basic_types() {
    let int_type = trim_type_path("i32");
    let str_type = trim_type_path("&str");
    let float_type = trim_type_path("f64");

    assert_eq!(int_type, "i32");
    assert_eq!(str_type, "&str");
    assert_eq!(float_type, "f64");
}

#[test]
fn test_type_name_of_val_generic_type() {
    let name = trim_type_path("alloc::vec::Vec<i32>");
    assert_eq!(name, "Vec<i32>");
}

#[test]
fn test_type_name_of_val_custom_type() {
    let name = trim_type_path("short_names::test_type_name_of_val_custom_type::MyStruct");
    assert_eq!(name, "MyStruct");
}

#[test]
fn trim_keeps_generic_arguments_whole() {
    assert_eq!(
        trim_type_path("alloc::vec::Vec<core::option::Option<u8>>"),
        "Vec<core::option::Option<u8>>"
    );
    assert_eq!(trim_type_path("u8"), "u8");
    assert_eq!(trim_type_path(""), "");
    assert_eq!(trim_type_path("a::b::"), "");
}
