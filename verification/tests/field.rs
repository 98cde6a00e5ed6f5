use whats_running::field::{field_error, map_failure, Field, IoFailure};

#[test]
fn status_words() {
    assert_eq!(Field::Value(1).status(), "value");
    assert_eq!(Field::<u8>::NotCollected.status(), "not_collected");
    assert_eq!(Field::<u8>::PermissionDenied.status(), "permission_denied");
    assert_eq!(Field::<u8>::Vanished.status(), "vanished");
    assert_eq!(Field::<u8>::Unsupported.status(), "unsupported");
    assert_eq!(Field::<u8>::ParseError.status(), "parse_error");
    assert_eq!(Field::<u8>::IoError.status(), "io_error");
}

#[test]
fn map_keeps_failures() {
    assert_eq!(Field::Value(2).map(|v| v * 3).copied(), Some(6));
    assert_eq!(Field::<u8>::Vanished.map(|v| v as u32).status(), "vanished");
    assert_eq!(Field::Value(5).value(), Some(&5));
    assert_eq!(Field::<u8>::IoError.value(), None);
}

#[test]
fn read_failures() {
    assert_eq!(field_error::<u8>(IoFailure::PermissionDenied).status(), "permission_denied");
    assert_eq!(field_error::<u8>(IoFailure::NotFound).status(), "vanished");
    assert_eq!(field_error::<u8>(IoFailure::Unsupported).status(), "unsupported");
    assert_eq!(field_error::<u8>(IoFailure::Other).status(), "io_error");
    assert_eq!(map_failure::<u8, u32>(&Field::Value(1)).status(), "parse_error");
    assert_eq!(map_failure::<u8, u32>(&Field::Unsupported).status(), "unsupported");
}

#[test]
fn map_identity_and_composition() {
    let f: Field<u32> = Field::Value(4);
    assert_eq!(f.clone().map(|x| x).copied(), Some(4));
    assert_eq!(f.clone().map(|x| x + 1).map(|x| x * 2).copied(), f.map(|x| (x + 1) * 2).copied());
    let g: Field<u32> = Field::PermissionDenied;
    assert_eq!(g.map(|x| x).status(), "permission_denied");
}
