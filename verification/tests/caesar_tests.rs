use ciphers::caesar::{decrypt, encrypt, shift, ALPHA_52};

#[test]
fn test_shift() {
    assert_eq!(shift('a', 1, ALPHA_52), 'b');
    assert_eq!(shift('A', 1, ALPHA_52), 'B');
    assert_eq!(shift('Z', 1, ALPHA_52), 'a');
    assert_eq!(shift('a', -1, ALPHA_52), 'Z');
    assert_eq!(shift('z', 1, ALPHA_52), 'A');
}

#[test]
fn caesar_test_encrypt() {
    assert_eq!(encrypt("aAZaz", 1, ALPHA_52), "bBabA");
    assert_eq!(encrypt("Hello there!", -10, ALPHA_52), "xUbbe jXUhU!");
}

#[test]
fn caesar_test_decrypt() {
    assert_eq!(decrypt("bBabA", 1, ALPHA_52), "aAZaz");
    assert_eq!(decrypt("xUbbe jXUhU!", -10, ALPHA_52), "Hello there!");
}

#[test]
fn caesar_non_alphabet_passes_through() {
    assert_eq!(encrypt("3, 2, 1!", 5, ALPHA_52), "3, 2, 1!");
}
