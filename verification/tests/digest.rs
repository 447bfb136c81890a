use subito::digest::Digest;

#[test]
fn digest_of_abc_is_the_published_value() {
    let d = Digest::of(b"abc");
    assert_eq!(
        d.to_hex(),
        "3a985da74fe225b2045c172d6bd390bd855f086e3e9d525b46bfe24511431532"
    );
}

#[test]
fn digest_from_bytes_wants_thirty_two() {
    assert!(Digest::from_bytes(vec![0u8; 31]).is_none());
    let d = Digest::from_bytes(vec![0xabu8; 32]).unwrap();
    assert_eq!(d.to_hex(), "ab".repeat(32));
    assert!(d.same(&d.duplicate()));
    assert!(!d.same(&Digest::of(b"")));
}
