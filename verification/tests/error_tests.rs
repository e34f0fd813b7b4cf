use fizzbee_mbt::MbtError;

#[test]
fn other_is_the_generic_failure() {
    let e = MbtError::other("disk on fire".to_string());
    assert!(!e.is_not_implemented());
    assert_eq!(e.message(), "disk on fire");
    assert_eq!(e, MbtError::Other("disk on fire".to_string()));
}

#[test]
fn not_implemented_is_the_deliberate_refusal() {
    let e = MbtError::not_implemented("someday".to_string());
    assert!(e.is_not_implemented());
    assert_eq!(e.message(), "someday");
    assert_eq!(e, MbtError::NotImplemented("someday".to_string()));
}

#[test]
fn from_err_wraps_any_standard_error_as_other() {
    let io = std::io::Error::new(std::io::ErrorKind::Other, "socket gone");
    let e = MbtError::from_err(io);
    assert!(!e.is_not_implemented());
    assert_eq!(e.message(), "socket gone");
}

#[test]
fn duplicate_preserves_kind_and_message() {
    let e = MbtError::not_implemented("later".to_string());
    let d = e.duplicate();
    assert_eq!(d, e);
    let e = MbtError::other("now".to_string());
    let d = e.duplicate();
    assert_eq!(d, e);
}
