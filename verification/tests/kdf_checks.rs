use hostlist::kdf::{check_okm_length, check_prk_length};

#[test]
fn test_check_prk_length() {
    assert!(check_prk_length(31, 32).is_err());
    assert!(check_prk_length(32, 32).is_ok());
    assert!(check_prk_length(64, 32).is_ok());
    assert!(check_prk_length(0, 0).is_ok());
}

#[test]
fn test_check_okm_length() {
    // 255 blocks of 32 bytes is the largest expandable output.
    assert!(check_okm_length(255 * 32, 32).is_ok());
    assert!(check_okm_length(255 * 32 + 1, 32).is_err());
    assert!(check_okm_length(0, 32).is_ok());
    assert!(check_okm_length(1, 0).is_err());
}
