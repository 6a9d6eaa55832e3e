//! The Caesar shift cipher over a caller-supplied alphabet.
//!
//! Characters found in the alphabet are rotated by a fixed amount;
//! all other characters pass through unchanged.

use vstd::prelude::*;

use crate::chars::{chars_to_string, find_first, lemma_cycle_round_trip,
    lemma_first_index_unique, shift_index, str_to_chars};

verus! {

/// The default alphabet: the lowercase letters, then the uppercase ones.
pub const ALPHA_52: &'static str = "abcdefghijklmnopqrstuvwxyzABCDEFGHIJKLMNOPQRSTUVWXYZ";

/// What shifting one character returns: the character `rot` places
/// after `c`'s first occurrence in the cyclic alphabet, or `c` itself
/// when the alphabet does not hold it.
pub open spec fn shift_spec(c: char, rot: int, alpha: Seq<char>) -> char {
    match alpha.index_of_first(c) {
        Some(i) => alpha[(i + rot) % (alpha.len() as int)],
        None => c,
    }
}

/// Law: decryption inverts encryption. Over a duplicate-free alphabet,
/// shifting any character forward and then backward by the same amount
/// returns it unchanged, so `decrypt` restores what `encrypt` produced
/// character by character.
pub proof fn lemma_shift_round_trip(c: char, rot: int, alpha: Seq<char>)
    requires
        alpha.no_duplicates(),
    ensures
        shift_spec(shift_spec(c, rot, alpha), -rot, alpha) == c,
{
    alpha.index_of_first_ensures(c);
    match alpha.index_of_first(c) {
        Some(i) => {
            lemma_cycle_round_trip(alpha, i, rot);
        },
        None => {},
    }
}

/// Shifts `c` by `rot` places within the cyclic alphabet `alpha`.
pub fn shift(c: char, rot: i32, alpha: &str) -> (r: char)
    requires
        alpha@.len() <= 0x7fff_ffff,
    ensures
        r == shift_spec(c, rot as int, alpha@),
{
    let av = str_to_chars(alpha);
    match find_first(&av, c) {
        Some(i) => {
            proof {
                lemma_first_index_unique(alpha@, c, i as int);
            }
            let j = shift_index(i, rot, av.len());
            av[j]
        },
        None => {
            proof {
                alpha@.index_of_first_ensures(c);
            }
            c
        },
    }
}

/// Encrypts `text` with a right-shift of `rot` places over `alpha`;
/// characters outside the alphabet are left as they are.
pub fn encrypt(text: &str, rot: i32, alpha: &str) -> (r: String)
    requires
        alpha@.len() <= 0x7fff_ffff,
    ensures
        r@.len() == text@.len(),
        forall|i: int|
            0 <= i < text@.len() ==> r@[i] == shift_spec(#[trigger] text@[i], rot as int, alpha@),
{
    let tv = str_to_chars(text);
    let n = tv.len();
    let mut out: Vec<char> = Vec::new();
    for i in 0..n
        invariant
            n == tv.len(),
            tv@ == text@,
            alpha@.len() <= 0x7fff_ffff,
            out@.len() == i,
            forall|j: int|
                0 <= j < i ==> out@[j] == shift_spec(#[trigger] text@[j], rot as int, alpha@),
    {
        let s = shift(tv[i], rot, alpha);
        out.push(s);
    }
    chars_to_string(&out)
}

/// Decrypts `text` by shifting every alphabet character `rot` places
/// back: the inverse of `encrypt` with the same arguments.
pub fn decrypt(text: &str, rot: i32, alpha: &str) -> (r: String)
    requires
        alpha@.len() <= 0x7fff_ffff,
        rot != i32::MIN,
    ensures
        r@.len() == text@.len(),
        forall|i: int|
            0 <= i < text@.len() ==> r@[i] == shift_spec(#[trigger] text@[i], -(rot as int), alpha@),
{
    encrypt(text, -rot, alpha)
}

} // verus!
