use contexter::config::Config;
use contexter::utils::{
    generate_api_key, handle_config_generate_key, handle_config_remove_key, hash_api_key,
    validate_api_key,
};

#[test]
fn test_api_key_generation() {
    let key = generate_api_key();
    assert_eq!(key.len(), 43); // Base64 encoding of 32 bytes
    assert!(key
        .chars()
        .all(|c| c.is_ascii_alphanumeric() || c == '-' || c == '_'));
}

#[test]
fn test_api_key_hashing() {
    let key = "test_key";
    let hashed_key = hash_api_key(key);
    assert_eq!(hashed_key.len(), 64); // SHA-256 hash is 32 bytes, hex-encoded to 64 characters
    assert!(hashed_key.chars().all(|c| c.is_ascii_hexdigit()));
}

#[test]
fn test_api_key_hash_value() {
    // SHA-256("abc"), lowercase hex
    assert_eq!(
        hash_api_key("abc"),
        "ba7816bf8f01cfea414140de5dae2223b00361a396177a9cb410ff61f20015ad"
    );
}

#[test]
fn test_api_key_validation() {
    let mut config = Config::default();
    let key = generate_api_key();
    let hashed_key = hash_api_key(&key);
    config.add_api_key("main".to_string(), hashed_key);

    assert!(validate_api_key(&config, &key));
    assert!(!validate_api_key(&config, "invalid_key"));
}

#[test]
fn test_multiple_api_keys() {
    let mut config = Config::default();
    let key1 = generate_api_key();
    let key2 = generate_api_key();
    let hashed_key1 = hash_api_key(&key1);
    let hashed_key2 = hash_api_key(&key2);

    config.add_api_key("first".to_string(), hashed_key1.clone());
    config.add_api_key("second".to_string(), hashed_key2.clone());

    assert_eq!(config.api_keys.len(), 2);
    assert!(config.api_keys.iter().any(|e| e.value == hashed_key1));
    assert!(config.api_keys.iter().any(|e| e.value == hashed_key2));
}

#[test]
fn test_remove_api_key() {
    let mut config = Config::default();
    let key = generate_api_key();
    let hashed_key = hash_api_key(&key);

    config.add_api_key("main".to_string(), hashed_key);
    assert_eq!(config.api_keys.len(), 1);

    config.remove_api_key("main");
    assert_eq!(config.api_keys.len(), 0);
}

#[test]
fn test_credential_round_trip() {
    let mut config = Config::default();
    let secret = handle_config_generate_key(&mut config, "roundtrip".to_string());

    // The secret authorizes right after it was issued.
    assert!(validate_api_key(&config, &secret));

    // Once its credential is removed, the same secret is rejected.
    handle_config_remove_key(&mut config, "roundtrip");
    assert!(!validate_api_key(&config, &secret));
}

#[test]
fn test_no_credentials_always_reject() {
    let config = Config::default();
    assert!(!validate_api_key(&config, ""));
    assert!(!validate_api_key(&config, "anything"));
}

#[test]
fn test_replacing_key_revokes_old_secret() {
    let mut config = Config::default();
    let old_secret = handle_config_generate_key(&mut config, "main".to_string());
    let new_secret = handle_config_generate_key(&mut config, "main".to_string());

    assert_eq!(config.api_keys.len(), 1);
    assert!(validate_api_key(&config, &new_secret));
    assert!(!validate_api_key(&config, &old_secret));
}
