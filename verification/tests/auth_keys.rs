use m0_core::auth::bearer_token;
use m0_core::auth::ApiKeyAuth;
use m0_core::auth::JwtAuth;

#[test]
fn key_hash_is_the_hex_sha256() {
    // SHA-256("abc"), hex-encoded, lowercase.
    assert_eq!(
        ApiKeyAuth::key_hash("abc"),
        "ba7816bf8f01cfea414140de5dae2223b00361a396177a9cb410ff61f20015ad"
    );
    assert_eq!(
        ApiKeyAuth::key_hash(""),
        "e3b0c44298fc1c149afbf4c8996fb92427ae41e4649b934ca495991b7852b855"
    );
}

#[test]
fn empty_key_set_allows_everything() {
    let auth = ApiKeyAuth::from_config("");
    assert!(auth.verify("anything"));
    assert!(auth.verify(""));
    let auth = ApiKeyAuth::from_config(" ,  , ");
    assert!(auth.verify("anything"));
}

#[test]
fn configured_keys_are_verified_by_hash() {
    let auth = ApiKeyAuth::from_config("alpha, beta");
    assert!(auth.verify("alpha"));
    assert!(auth.verify("beta"));
    assert!(!auth.verify("gamma"));
    assert!(!auth.verify(""));
    assert!(!auth.verify("ba7816bf8f01cfea414140de5dae2223b00361a396177a9cb410ff61f20015ad"));
}

#[test]
fn configured_keys_are_trimmed() {
    let auth = ApiKeyAuth::from_config("  spaced  ,\ttabbed\t");
    assert!(auth.verify("spaced"));
    assert!(auth.verify("tabbed"));
    assert!(!auth.verify("  spaced  "));
}

#[test]
fn bearer_token_extraction() {
    assert_eq!(bearer_token("Bearer abc123"), Some("abc123".to_string()));
    assert_eq!(bearer_token("  Bearer   tok  "), Some("tok".to_string()));
    assert_eq!(bearer_token("Basic abc123"), None);
    assert_eq!(bearer_token("Bearer"), None);
    assert_eq!(bearer_token(""), None);
    assert_eq!(bearer_token("bearer abc"), None);
}

#[test]
fn jwt_auth_holds_its_configuration() {
    let auth = JwtAuth::new("s3cret".to_string(), Some("aud".to_string()), None);
    assert_eq!(auth.secret, "s3cret");
    assert_eq!(auth.audience, Some("aud".to_string()));
    assert_eq!(auth.issuer, None);
}
