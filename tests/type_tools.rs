use wfwalk::type_tools::{BoolTools, OptionTools, VecTools};

#[test]
fn test_map_none() {
    assert_eq!(Some("False"), None::<Option<&str>>.not(|| "False"));
    assert_eq!(None, Some("True").not(|| "Not used"));
}

#[test]
fn test_if_then() {
    assert_eq!(Some("True"), true.if_true(|| "True"));
    assert_eq!(None, false.if_true(|| "Not used"));
}

#[test]
fn test_to_strings() {
    assert_eq!(
        vec!["one".to_string(), "two".to_string()],
        vec!["one", "two"].to_strings()
    );
    assert_eq!(
        vec!["1".to_string(), "2".to_string(), "3".to_string()],
        vec![1, 2, 3].to_strings()
    );
}

#[test]
fn to_strings_writes_negative_numbers_in_decimal() {
    assert_eq!(vec!["-45".to_string(), "0".to_string()], vec![-45, 0].to_strings());
}
