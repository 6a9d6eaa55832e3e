use ciphers::playfair::{decrypt, encrypt, generate_key, PlayfairError};

#[test]
fn test_generate_key() {
    // combine J and K
    let key: String = generate_key("INTERCEPTOR", 'K').unwrap().cells.iter().collect();
    assert_eq!(key, "INTERCPOABDFGHJLMQSUVWXYZ");
}

#[test]
fn playfair_test_encrypt() {
    let result = encrypt("ZAPXPHOD", "ZERO", 'J').unwrap();
    assert_eq!(result, "EZSVNIRF");
}

#[test]
fn playfair_test_decrypt() {
    let result = decrypt("EZSVNIRF", "ZERO", 'J').unwrap();
    assert_eq!(result, "ZAPXPHOD");
}

#[test]
fn playfair_repeated_pair_rejected() {
    assert_eq!(
        encrypt("AABC", "ZERO", 'J'),
        Err(PlayfairError::RepeatedAdjacentPair('A'))
    );
    assert_eq!(
        decrypt("AABC", "ZERO", 'J'),
        Err(PlayfairError::RepeatedAdjacentPair('A'))
    );
}

#[test]
fn playfair_keyword_with_omitted_letter_rejected() {
    assert_eq!(
        generate_key("JOKER", 'J').unwrap_err(),
        PlayfairError::KeywordContainsOmittedLetter
    );
    assert_eq!(
        encrypt("AB", "JOKER", 'J'),
        Err(PlayfairError::KeywordContainsOmittedLetter)
    );
}

#[test]
fn playfair_invalid_keyword_rejected() {
    assert_eq!(
        generate_key("zero", 'J').unwrap_err(),
        PlayfairError::InvalidKeyword('z')
    );
    assert_eq!(encrypt("AB", "ZER0", 'J'), Err(PlayfairError::InvalidKeyword('0')));
}

#[test]
fn playfair_invalid_text_rejected() {
    assert_eq!(encrypt("AB1", "ZERO", 'J'), Err(PlayfairError::InvalidText('1')));
    assert_eq!(decrypt("ab", "ZERO", 'J'), Err(PlayfairError::InvalidText('a')));
}

#[test]
fn playfair_omitted_letter_in_text_rejected() {
    assert_eq!(encrypt("JD", "ZERO", 'J'), Err(PlayfairError::LetterNotInSquare('J')));
}

#[test]
fn playfair_odd_text_padded_with_filler() {
    let cipher = encrypt("ZAP", "ZERO", 'J').unwrap();
    assert_eq!(cipher.len(), 4);
    assert_eq!(decrypt(&cipher, "ZERO", 'J').unwrap(), "ZAPZ");
}

#[test]
fn playfair_even_round_trip() {
    let cipher = encrypt("ZAPXPHOD", "ZERO", 'J').unwrap();
    assert_eq!(decrypt(&cipher, "ZERO", 'J').unwrap(), "ZAPXPHOD");
}

#[test]
fn playfair_same_row_shifts_columns() {
    // Empty keyword: the square is the alphabet without 'J', so the
    // first row is "ABCDE"; encryption shifts right, decryption left.
    assert_eq!(encrypt("AB", "", 'J').unwrap(), "BC");
    assert_eq!(decrypt("BC", "", 'J').unwrap(), "AB");
}

#[test]
fn playfair_same_column_shifts_rows() {
    // 'A' and 'F' share the first column of the keyword-less square.
    assert_eq!(encrypt("AF", "", 'J').unwrap(), "FL");
    assert_eq!(decrypt("FL", "", 'J').unwrap(), "AF");
}

#[test]
fn playfair_rectangle_swaps_columns_both_ways() {
    // 'B' and 'F' share neither row nor column: columns swap, and the
    // swap undoes itself when decrypting.
    assert_eq!(encrypt("BF", "", 'J').unwrap(), "AG");
    assert_eq!(decrypt("AG", "", 'J').unwrap(), "BF");
}

#[test]
fn playfair_square_covers_alphabet_minus_omitted() {
    let square = generate_key("PLAYFAIR", 'Q').unwrap();
    assert_eq!(square.cells.len(), 25);
    let mut sorted = square.cells.clone();
    sorted.sort();
    sorted.dedup();
    assert_eq!(sorted.len(), 25);
    assert!(!square.cells.contains(&'Q'));
    for c in 'A'..='Z' {
        if c != 'Q' {
            assert!(square.cells.contains(&c));
        }
    }
}
