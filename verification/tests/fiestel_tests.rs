use ciphers::fiestel::{decrypt_block, encrypt_block};

#[test]
fn test_encrypt_block1() {
    let key = b"Hello";
    let plain = (b'A', b'X');
    let enciphered = encrypt_block(plain, key);
    assert_ne!(plain, enciphered);
    let deciphered = decrypt_block(enciphered, key);
    assert_eq!(plain, deciphered);
}

#[test]
fn test_encrypt_block2() {
    let key = b"aaa";
    let plain = (b'a', b'Y');
    let enciphered = encrypt_block(plain, key);
    assert_ne!(plain, enciphered);
    let deciphered = decrypt_block(enciphered, key);
    assert_eq!(plain, deciphered);
}

#[test]
fn test_empty_key_swaps_halves() {
    let key: &[u8] = &[];
    assert_eq!(encrypt_block((1, 2), key), (2, 1));
    assert_eq!(decrypt_block((2, 1), key), (1, 2));
}

#[test]
fn test_single_round_trip() {
    let key: &[u8] = &[0x5a];
    let plain = (0x00, 0xff);
    let enciphered = encrypt_block(plain, key);
    let deciphered = decrypt_block(enciphered, key);
    assert_eq!(plain, deciphered);
}
