//! The Vigenère polyalphabetic cipher over a caller-supplied alphabet.
//!
//! Each text character found in the alphabet is shifted by the position
//! of the corresponding key character (the key repeats cyclically);
//! characters outside the alphabet pass through unchanged.

use vstd::prelude::*;

use crate::chars::{chars_to_string, find_first, lemma_cycle_round_trip,
    lemma_first_index_unique, shift_index, str_to_chars};

verus! {

/// Alphabet: letters, digits and the space.
pub const ALPHA_61: &'static str =
    "abcdefghijklmnopqrstuvwxyzABCDEFGHIJKLMNOPQRSTUVWXYZ0123456789 ";

/// Alphabet: the lowercase letters, then the uppercase ones.
pub const ALPHA_52: &'static str = "abcdefghijklmnopqrstuvwxyzABCDEFGHIJKLMNOPQRSTUVWXYZ";

/// Alphabet: the lowercase letters.
pub const ALPHA_LOWER: &'static str = "abcdefghijklmnopqrstuvwxyz";

/// Alphabet: the uppercase letters.
pub const ALPHA_UPPER: &'static str = "ABCDEFGHIJKLMNOPQRSTUVWXYZ";

/// What shifting one character by one key character returns: the
/// character whose position is the sum (or, when decrypting, the
/// difference) of the two first occurrences, modulo the alphabet's
/// length; characters outside the alphabet pass through.
pub open spec fn vshift_spec(c: char, k: char, alpha: Seq<char>, decrypt: bool) -> char {
    match alpha.index_of_first(c) {
        Some(ci) => {
            let ki = alpha.index_of_first(k)->Some_0;
            let rot = if decrypt {
                -ki
            } else {
                ki
            };
            alpha[(ci + rot) % (alpha.len() as int)]
        },
        None => c,
    }
}

/// Law: decryption inverts encryption. Over a duplicate-free alphabet,
/// shifting any character forward by a key character's position and
/// then backward by the same position returns it unchanged.
pub proof fn lemma_vshift_round_trip(c: char, k: char, alpha: Seq<char>)
    requires
        alpha.no_duplicates(),
    ensures
        vshift_spec(vshift_spec(c, k, alpha, false), k, alpha, true) == c,
{
    alpha.index_of_first_ensures(c);
    match alpha.index_of_first(c) {
        Some(ci) => {
            let ki = alpha.index_of_first(k)->Some_0;
            lemma_cycle_round_trip(alpha, ci, ki);
        },
        None => {},
    }
}

/// Shifts `c` by the alphabet position of the key character `k`,
/// forward to encrypt and backward (`diff`) to decrypt.
fn shift(c: char, k: char, alpha: &str, diff: bool) -> (r: char)
    requires
        alpha@.len() <= 0x7fff_ffff,
        alpha@.contains(c) ==> alpha@.contains(k),
    ensures
        r == vshift_spec(c, k, alpha@, diff),
{
    let av = str_to_chars(alpha);
    match find_first(&av, c) {
        Some(ci) => {
            proof {
                lemma_first_index_unique(alpha@, c, ci as int);
                assert(alpha@.contains(c)) by {
                    assert(alpha@[ci as int] == c);
                }
            }
            let ki: usize = match find_first(&av, k) {
                Some(ki) => {
                    proof {
                        lemma_first_index_unique(alpha@, k, ki as int);
                    }
                    ki
                },
                None => {
                    proof {
                        assert(false);
                    }
                    0
                },
            };
            let rot: i32 = if diff {
                -(ki as i32)
            } else {
                ki as i32
            };
            let j = shift_index(ci, rot, av.len());
            av[j]
        },
        None => {
            proof {
                alpha@.index_of_first_ensures(c);
            }
            c
        },
    }
}

/// Pairs each text character with a key character, cycling the key,
/// and shifts it in the given direction.
fn vignere_cipher(text: &str, key: &str, alpha: &str, decrypt: bool) -> (r: String)
    requires
        alpha@.len() <= 0x7fff_ffff,
        key@.len() == 0 || forall|i: int|
            0 <= i < text@.len() && alpha@.contains(#[trigger] text@[i])
                ==> alpha@.contains(key@[i % key@.len() as int]),
    ensures
        key@.len() == 0 ==> r@.len() == 0,
        key@.len() > 0 ==> {
            &&& r@.len() == text@.len()
            &&& forall|i: int|
                0 <= i < text@.len() ==> r@[i] == vshift_spec(
                    #[trigger] text@[i],
                    key@[i % key@.len() as int],
                    alpha@,
                    decrypt,
                )
        },
{
    let tv = str_to_chars(text);
    let kv = str_to_chars(key);
    if kv.len() == 0 {
        return String::new();
    }
    let n = tv.len();
    let kn = kv.len();
    let mut out: Vec<char> = Vec::new();
    for i in 0..n
        invariant
            n == tv.len(),
            kn == kv.len(),
            0 < kn,
            tv@ == text@,
            kv@ == key@,
            alpha@.len() <= 0x7fff_ffff,
            forall|j: int|
                0 <= j < text@.len() && alpha@.contains(#[trigger] text@[j]) ==> alpha@.contains(
                    key@[j % key@.len() as int],
                ),
            out@.len() == i,
            forall|j: int|
                0 <= j < i ==> out@[j] == vshift_spec(
                    #[trigger] text@[j],
                    key@[j % key@.len() as int],
                    alpha@,
                    decrypt,
                ),
    {
        let k = kv[i % kn];
        let s = shift(tv[i], k, alpha, decrypt);
        out.push(s);
    }
    chars_to_string(&out)
}

/// Encrypts `text` with the repeating `key` over `alpha`.
pub fn encrypt(text: &str, key: &str, alpha: &str) -> (r: String)
    requires
        alpha@.len() <= 0x7fff_ffff,
        key@.len() == 0 || forall|i: int|
            0 <= i < text@.len() && alpha@.contains(#[trigger] text@[i])
                ==> alpha@.contains(key@[i % key@.len() as int]),
    ensures
        key@.len() == 0 ==> r@.len() == 0,
        key@.len() > 0 ==> {
            &&& r@.len() == text@.len()
            &&& forall|i: int|
                0 <= i < text@.len() ==> r@[i] == vshift_spec(
                    #[trigger] text@[i],
                    key@[i % key@.len() as int],
                    alpha@,
                    false,
                )
        },
{
    vignere_cipher(text, key, alpha, false)
}

/// Decrypts `text` with the repeating `key` over `alpha`: the inverse
/// shift of `encrypt` with the same arguments.
pub fn decrypt(text: &str, key: &str, alpha: &str) -> (r: String)
    requires
        alpha@.len() <= 0x7fff_ffff,
        key@.len() == 0 || forall|i: int|
            0 <= i < text@.len() && alpha@.contains(#[trigger] text@[i])
                ==> alpha@.contains(key@[i % key@.len() as int]),
    ensures
        key@.len() == 0 ==> r@.len() == 0,
        key@.len() > 0 ==> {
            &&& r@.len() == text@.len()
            &&& forall|i: int|
                0 <= i < text@.len() ==> r@[i] == vshift_spec(
                    #[trigger] text@[i],
                    key@[i % key@.len() as int],
                    alpha@,
                    true,
                )
        },
{
    vignere_cipher(text, key, alpha, true)
}

} // verus!
