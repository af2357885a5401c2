use h2proxy_core::backend::{sized_path, MAX_SIZED_RESPONSE};

#[test]
fn a_sized_path_names_a_length() {
    assert_eq!(sized_path("/bytes/0"), Some(0));
    assert_eq!(sized_path("/bytes/4096"), Some(4096));
    assert_eq!(sized_path("/bytes/99999999999999999999"), None);
    assert_eq!(sized_path("/bytes/999999999999"), Some(MAX_SIZED_RESPONSE));
    assert_eq!(sized_path("/bytes/"), None);
    assert_eq!(sized_path("/bytes/12x"), None);
    assert_eq!(sized_path("/"), None);
}
