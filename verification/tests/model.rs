use apicase::model::{AssertOp, AuthType, BodyType, Kv};

#[test]
fn blank_rows_are_inactive() {
    assert!(Kv::new("a", "1").active());
    assert!(!Kv::new("  ", "1").active());
    let mut k = Kv::new("a", "1");
    k.enabled = false;
    assert!(!k.active());
}

#[test]
fn unknown_enum_values_fall_back() {
    assert_eq!(AssertOp::from("equals"), AssertOp::Eq);
    assert_eq!(AuthType::from("jwt"), AuthType::NoAuth);
    assert_eq!(BodyType::from("raw"), BodyType::NoBody);
    assert_eq!(AssertOp::from("nope"), AssertOp::Eq);
}

#[test]
fn enum_json_roundtrip() {
    for op in [AssertOp::Eq, AssertOp::NotExists, AssertOp::Matches] {
        assert_eq!(AssertOp::from(op.as_str()), op);
    }
    assert_eq!(AssertOp::NotExists.as_str(), "notExists");
    assert_eq!(BodyType::FormUrlencoded.as_str(), "form-urlencoded");
}
