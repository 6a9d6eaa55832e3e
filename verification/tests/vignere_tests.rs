use ciphers::vignere::{decrypt, encrypt, ALPHA_52, ALPHA_LOWER, ALPHA_UPPER};

#[test]
fn test_encrypt1() {
    assert_eq!(encrypt("ATTACKATDAWN", "LEMON", ALPHA_UPPER), "LXFOPVEFRNHR");
    assert_eq!(decrypt("LXFOPVEFRNHR", "LEMON", ALPHA_UPPER), "ATTACKATDAWN");
}

#[test]
fn test_encrypt2() {
    assert_eq!(encrypt("Hello there.", "QAoom UwAOA.", ALPHA_52), "xEzzA nDEfE.");
    assert_eq!(decrypt("xEzzA nDEfE.", "QAoom UwAOA.", ALPHA_52), "Hello there.");
}

#[test]
fn test_encrypt3() {
    assert_eq!(encrypt("tokyotower.", "key", ALPHA_LOWER), "dsiisryacb.");
    assert_eq!(decrypt("dsiisryacb.", "key", ALPHA_LOWER), "tokyotower.");
}

#[test]
fn vignere_empty_key_gives_empty_output() {
    assert_eq!(encrypt("abc", "", ALPHA_LOWER), "");
    assert_eq!(decrypt("abc", "", ALPHA_LOWER), "");
}
