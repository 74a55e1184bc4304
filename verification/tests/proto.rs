use tau::proto::CRATE_NAME;

#[test]
fn crate_name_matches() {
    assert_eq!(CRATE_NAME, "shlop-proto");
}
