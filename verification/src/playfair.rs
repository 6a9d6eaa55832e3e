//! The Playfair cipher engine.
//!
//! A key square of 25 distinct uppercase letters (the 26-letter alphabet
//! minus one omitted letter) is derived from a keyword; texts are split
//! into pairs of letters and each pair is substituted by the same-row,
//! same-column or rectangle rule. Encryption shifts by +1 and decryption
//! by +4 (that is, -1 modulo 5), so the two directions are exact inverses;
//! the rectangle rule swaps columns and is its own inverse.

use vstd::prelude::*;
use vstd::seq_lib::*;
use vstd::arithmetic::div_mod::{
    lemma_fundamental_div_mod, lemma_mod_bound, lemma_mod_multiples_vanish, lemma_small_mod,
};

use crate::chars::{chars_to_string, find_first, lemma_first_index_unique, str_to_chars};

verus! {

/// The failures the Playfair engine can report.
#[derive(Debug, Clone, Copy, PartialEq, Eq)]
pub enum PlayfairError {
    /// The keyword holds a character that is not an uppercase letter.
    InvalidKeyword(char),
    /// The keyword holds the letter designated as omitted.
    KeywordContainsOmittedLetter,
    /// The text holds a character that is not an uppercase letter.
    InvalidText(char),
    /// Two identical letters fall within the same transformation pair.
    RepeatedAdjacentPair(char),
    /// A letter is absent from the key square; with a well-built square
    /// only the omitted letter can be.
    LetterNotInSquare(char),
}

/// `c` is one of the 26 uppercase Latin letters.
pub open spec fn is_upper(c: char) -> bool {
    'A' as u32 <= c as u32 <= 'Z' as u32
}

/// The 26-letter alphabet in natural order.
pub open spec fn alphabet() -> Seq<char> {
    seq![
        'A', 'B', 'C', 'D', 'E', 'F', 'G', 'H', 'I', 'J', 'K', 'L', 'M', 'N', 'O', 'P', 'Q', 'R',
        'S', 'T', 'U', 'V', 'W', 'X', 'Y', 'Z',
    ]
}

/// The predicate that keeps every character other than `x`.
pub open spec fn ne_pred(x: char) -> spec_fn(char) -> bool {
    |c: char| c != x
}

/// The alphabet with the omitted letter removed.
pub open spec fn alpha_minus(omit: char) -> Seq<char> {
    alphabet().filter(ne_pred(omit))
}

/// Keeps the first occurrence of every character, in order of first
/// appearance, and discards later repeats.
pub open spec fn dedup(s: Seq<char>) -> Seq<char>
    decreases s.len(),
{
    if s.len() == 0 {
        Seq::empty()
    } else {
        let d = dedup(s.drop_last());
        if d.contains(s.last()) {
            d
        } else {
            d.push(s.last())
        }
    }
}

/// The key square derived from a keyword: the keyword's letters in
/// first-seen order, then the rest of the reduced alphabet in natural
/// order.
pub open spec fn key_square_seq(keyword: Seq<char>, omit: char) -> Seq<char> {
    dedup(keyword + alpha_minus(omit))
}

/// A sequence of 25 distinct uppercase letters, read as a 5x5 grid in
/// row-major order.
pub open spec fn square_wf(sq: Seq<char>) -> bool {
    &&& sq.len() == 25
    &&& sq.no_duplicates()
    &&& forall|i: int| 0 <= i < 25 ==> is_upper(#[trigger] sq[i])
}

/// The 5x5 letter grid a Playfair operation works on.
#[derive(Debug, Clone, PartialEq, Eq)]
pub struct KeySquare {
    /// The 25 letters of the square in row-major order.
    pub cells: Vec<char>,
}

impl View for KeySquare {
    type V = Seq<char>;

    open spec fn view(&self) -> Seq<char> {
        self.cells@
    }
}

impl KeySquare {
    /// Well-formed: exactly 25 distinct uppercase letters.
    pub open spec fn wf(&self) -> bool {
        square_wf(self@)
    }
}

/// Each letter of the alphabet carries its position's code.
proof fn lemma_alphabet_index(i: int)
    requires
        0 <= i < 26,
    ensures
        alphabet()[i] as u32 == 'A' as u32 + i,
{
}

/// The alphabet has 26 pairwise distinct letters.
proof fn lemma_alphabet_no_dup()
    ensures
        alphabet().len() == 26,
        alphabet().no_duplicates(),
{
    assert forall|i: int, j: int|
        0 <= i < 26 && 0 <= j < 26 && i != j implies alphabet()[i] != alphabet()[j] by {
        lemma_alphabet_index(i);
        lemma_alphabet_index(j);
    }
}

/// The alphabet holds exactly the uppercase letters.
proof fn lemma_alphabet_contains(c: char)
    ensures
        alphabet().contains(c) <==> is_upper(c),
{
    if is_upper(c) {
        let i = c as u32 - 'A' as u32;
        lemma_alphabet_index(i as int);
        assert(alphabet()[i as int] == c);
        assert(alphabet().contains(c));
    }
    if alphabet().contains(c) {
        let k = choose|k: int| 0 <= k < alphabet().len() && alphabet()[k] == c;
        lemma_alphabet_index(k);
    }
}

/// Filtering a duplicate-free sequence keeps it duplicate-free.
proof fn lemma_filter_no_dup(s: Seq<char>, p: spec_fn(char) -> bool)
    requires
        s.no_duplicates(),
    ensures
        s.filter(p).no_duplicates(),
    decreases s.len(),
{
    reveal(Seq::filter);
    if s.len() > 0 {
        let sub = s.drop_last();
        assert(sub.no_duplicates());
        lemma_filter_no_dup(sub, p);
        if p(s.last()) {
            assert(!sub.filter(p).contains(s.last())) by {
                if sub.filter(p).contains(s.last()) {
                    sub.lemma_filter_contains_rev(p, s.last());
                    let j = choose|j: int| 0 <= j < sub.len() && sub[j] == s.last();
                    assert(s[j] == s[s.len() - 1]);
                }
            }
            assert(s.filter(p) == sub.filter(p).push(s.last()));
            assert(s.filter(p).no_duplicates());
        }
    }
}

/// Removing one letter that occurs once shortens the sequence by one.
proof fn lemma_filter_ne_len(s: Seq<char>, x: char)
    requires
        s.no_duplicates(),
    ensures
        s.filter(ne_pred(x)).len() == s.len() - (if s.contains(x) {
            1int
        } else {
            0int
        }),
    decreases s.len(),
{
    reveal(Seq::filter);
    if s.len() > 0 {
        let sub = s.drop_last();
        assert(sub.no_duplicates());
        lemma_filter_ne_len(sub, x);
        assert(s.contains(x) <==> (sub.contains(x) || s.last() == x)) by {
            if s.contains(x) {
                let i = choose|i: int| 0 <= i < s.len() && s[i] == x;
                if i < s.len() - 1 {
                    assert(sub[i] == x);
                }
            }
            if sub.contains(x) {
                let i = choose|i: int| 0 <= i < sub.len() && sub[i] == x;
                assert(s[i] == x);
            }
        }
        if s.last() == x {
            assert(!sub.contains(x)) by {
                if sub.contains(x) {
                    let i = choose|i: int| 0 <= i < sub.len() && sub[i] == x;
                    assert(s[i] == s[s.len() - 1]);
                }
            }
        }
    }
}

/// The reduced alphabet: 25 distinct uppercase letters, every uppercase
/// letter but the omitted one.
proof fn lemma_alpha_minus(omit: char)
    requires
        is_upper(omit),
    ensures
        alpha_minus(omit).len() == 25,
        alpha_minus(omit).no_duplicates(),
        forall|c: char| alpha_minus(omit).contains(c) <==> (is_upper(c) && c != omit),
{
    lemma_alphabet_no_dup();
    lemma_alphabet_contains(omit);
    lemma_filter_no_dup(alphabet(), ne_pred(omit));
    lemma_filter_ne_len(alphabet(), omit);
    assert forall|c: char| alpha_minus(omit).contains(c) <==> (is_upper(c) && c != omit) by {
        lemma_alphabet_contains(c);
        if alpha_minus(omit).contains(c) {
            alphabet().lemma_filter_contains_rev(ne_pred(omit), c);
            let i = choose|i: int|
                0 <= i < alpha_minus(omit).len() && alpha_minus(omit)[i] == c;
            alphabet().lemma_filter_pred(ne_pred(omit), i);
        }
        if is_upper(c) && c != omit {
            let i = choose|i: int| 0 <= i < alphabet().len() && alphabet()[i] == c;
            alphabet().lemma_filter_contains(ne_pred(omit), i);
        }
    }
}

/// De-duplication yields a duplicate-free sequence over the same letters.
proof fn lemma_dedup_props(s: Seq<char>)
    ensures
        dedup(s).no_duplicates(),
        forall|c: char| dedup(s).contains(c) <==> s.contains(c),
    decreases s.len(),
{
    if s.len() > 0 {
        let sub = s.drop_last();
        lemma_dedup_props(sub);
        assert forall|c: char| s.contains(c) implies (sub.contains(c) || s.last() == c) by {
            let i = choose|i: int| 0 <= i < s.len() && s[i] == c;
            if i < s.len() - 1 {
                assert(sub[i] == c);
            }
        }
        assert forall|c: char| sub.contains(c) implies s.contains(c) by {
            let i = choose|i: int| 0 <= i < sub.len() && sub[i] == c;
            assert(s[i] == c);
        }
        assert(s.contains(s.last()));
        if !dedup(sub).contains(s.last()) {
            assert(dedup(s) == dedup(sub).push(s.last()));
            assert(dedup(s).no_duplicates());
            assert forall|c: char| dedup(s).contains(c) implies s.contains(c) by {
                let i = choose|i: int| 0 <= i < dedup(s).len() && dedup(s)[i] == c;
                if i < dedup(s).len() - 1 {
                    assert(dedup(sub)[i] == c);
                }
            }
            assert forall|c: char| s.contains(c) implies dedup(s).contains(c) by {
                if sub.contains(c) {
                    let i = choose|i: int| 0 <= i < dedup(sub).len() && dedup(sub)[i] == c;
                    assert(dedup(s)[i] == c);
                } else {
                    assert(dedup(s)[dedup(s).len() - 1] == c);
                }
            }
        }
    }
}

/// The first character of `s` that is not an uppercase letter.
pub open spec fn first_non_upper(s: Seq<char>) -> Option<char>
    decreases s.len(),
{
    if s.len() == 0 {
        None
    } else if !is_upper(s[0]) {
        Some(s[0])
    } else {
        first_non_upper(s.skip(1))
    }
}

/// No character fails the scan exactly when all are uppercase letters.
pub proof fn lemma_first_non_upper_none(s: Seq<char>)
    ensures
        first_non_upper(s) is None <==> (forall|i: int|
            0 <= i < s.len() ==> is_upper(#[trigger] s[i])),
    decreases s.len(),
{
    if s.len() > 0 && is_upper(s[0]) {
        lemma_first_non_upper_none(s.skip(1));
        assert forall|i: int| 0 <= i < s.len() && first_non_upper(s) is None
            implies is_upper(#[trigger] s[i]) by {
            if i > 0 {
                assert(s.skip(1)[i - 1] == s[i]);
            }
        }
        if forall|i: int| 0 <= i < s.len() ==> is_upper(#[trigger] s[i]) {
            assert forall|i: int| 0 <= i < s.skip(1).len() implies is_upper(#[trigger] s.skip(1)[i]) by {
                assert(s.skip(1)[i] == s[i + 1]);
            }
        }
    }
}

/// The error the key-square builder reports for a keyword, if any:
/// a character of the wrong class first, then the omitted letter.
pub open spec fn keyword_error(keyword: Seq<char>, omit: char) -> Option<PlayfairError> {
    match first_non_upper(keyword) {
        Some(c) => Some(PlayfairError::InvalidKeyword(c)),
        None => if keyword.contains(omit) {
            Some(PlayfairError::KeywordContainsOmittedLetter)
        } else {
            None
        },
    }
}

/// The key square derived from an accepted keyword is well formed and
/// covers exactly the alphabet minus the omitted letter.
pub proof fn lemma_key_square_wf(keyword: Seq<char>, omit: char)
    requires
        is_upper(omit),
        first_non_upper(keyword) is None,
        !keyword.contains(omit),
    ensures
        square_wf(key_square_seq(keyword, omit)),
        forall|c: char|
            key_square_seq(keyword, omit).contains(c) <==> (is_upper(c) && c != omit),
{
    let m = alpha_minus(omit);
    let cand = keyword + m;
    let sq = key_square_seq(keyword, omit);
    lemma_alpha_minus(omit);
    lemma_dedup_props(cand);
    lemma_first_non_upper_none(keyword);
    assert forall|c: char| cand.contains(c) <==> (is_upper(c) && c != omit) by {
        if cand.contains(c) {
            let i = choose|i: int| 0 <= i < cand.len() && cand[i] == c;
            if i < keyword.len() {
                assert(keyword[i] == c);
                assert(keyword.contains(c));
                if c == omit {
                    assert(false);
                }
            } else {
                assert(m[i - keyword.len()] == c);
                assert(m.contains(c));
            }
        }
        if is_upper(c) && c != omit {
            assert(m.contains(c));
            let i = choose|i: int| 0 <= i < m.len() && m[i] == c;
            assert(cand[keyword.len() + i] == c);
        }
    }
    assert(forall|c: char| sq.contains(c) <==> (is_upper(c) && c != omit));
    // Two duplicate-free sequences over the same letters have one length.
    broadcast use vstd::set::group_set_axioms;

    sq.unique_seq_to_set();
    m.unique_seq_to_set();
    assert forall|c: char| sq.to_set().contains(c) == m.to_set().contains(c) by {
        assert(sq.to_set().contains(c) == sq.contains(c));
        assert(m.to_set().contains(c) == m.contains(c));
        assert(sq.contains(c) <==> (is_upper(c) && c != omit));
        assert(m.contains(c) <==> (is_upper(c) && c != omit));
    }
    assert(sq.to_set() =~= m.to_set());
    assert(sq.len() == 25);
    assert forall|i: int| 0 <= i < 25 implies is_upper(#[trigger] sq[i]) by {
        assert(sq.contains(sq[i]));
    }
}

/// Generates the Playfair key square from a keyword.
///
/// The square lists the keyword's letters first, in first-seen order
/// with repeats discarded, then the remaining letters of the alphabet
/// (minus the omitted letter) in natural order. The keyword must consist
/// of uppercase letters and must not contain the omitted letter;
/// otherwise the matching error is returned and no square is produced.
pub fn generate_key(keyword: &str, omit: char) -> (r: Result<KeySquare, PlayfairError>)
    requires
        is_upper(omit),
    ensures
        match r {
            Ok(sq) => {
                &&& keyword_error(keyword@, omit) is None
                &&& sq.wf()
                &&& sq@ == key_square_seq(keyword@, omit)
                &&& forall|c: char| sq@.contains(c) <==> (is_upper(c) && c != omit)
            },
            Err(e) => keyword_error(keyword@, omit) == Some(e),
        },
{
    let kw = str_to_chars(keyword);
    let n = kw.len();
    proof {
        assert(keyword@.skip(0) =~= keyword@);
    }
    for i in 0..n
        invariant
            n == kw.len(),
            kw@ == keyword@,
            first_non_upper(keyword@.skip(i as int)) == first_non_upper(keyword@),
            forall|j: int| 0 <= j < i ==> is_upper(#[trigger] keyword@[j]),
    {
        let u = kw[i] as u32;
        proof {
            assert(keyword@.skip(i as int)[0] == keyword@[i as int]);
            assert(keyword@.skip(i as int).skip(1) =~= keyword@.skip(i + 1));
        }
        if u < 65 || u > 90 {
            return Err(PlayfairError::InvalidKeyword(kw[i]));
        }
    }
    proof {
        assert(keyword@.skip(n as int) =~= Seq::<char>::empty());
    }
    match find_first(&kw, omit) {
        Some(_) => {
            return Err(PlayfairError::KeywordContainsOmittedLetter);
        },
        None => {},
    }
    // Candidate sequence: keyword first, then the reduced alphabet.
    let mut cand = kw;
    let alpha = str_to_chars("ABCDEFGHIJKLMNOPQRSTUVWXYZ");
    proof {
        reveal_strlit("ABCDEFGHIJKLMNOPQRSTUVWXYZ");
        assert(alpha@ =~= alphabet());
    }
    for i in 0..26usize
        invariant
            alpha@ == alphabet(),
            cand@ == keyword@ + alphabet().take(i as int).filter(ne_pred(omit)),
    {
        proof {
            broadcast use Seq::lemma_filter_push;

            assert(alphabet().take(i + 1) =~= alphabet().take(i as int).push(alphabet()[i as int]));
        }
        let c = alpha[i];
        if c != omit {
            cand.push(c);
        }
    }
    proof {
        assert(alphabet().take(26) =~= alphabet());
        assert(cand@ =~= keyword@ + alpha_minus(omit));
    }
    // Keep the first occurrence of each letter.
    let mut out: Vec<char> = Vec::new();
    let cn = cand.len();
    for i in 0..cn
        invariant
            cn == cand.len(),
            cand@ == keyword@ + alpha_minus(omit),
            out@ == dedup(cand@.take(i as int)),
    {
        proof {
            assert(cand@.take(i + 1).drop_last() =~= cand@.take(i as int));
            assert(cand@.take(i + 1).last() == cand@[i as int]);
        }
        let c = cand[i];
        match find_first(&out, c) {
            Some(_) => {},
            None => {
                out.push(c);
            },
        }
    }
    proof {
        assert(cand@.take(cn as int) =~= cand@);
        lemma_key_square_wf(keyword@, omit);
    }
    Ok(KeySquare { cells: out })
}

/// The position of a letter in the square: the index of its first (for
/// a well-formed square, its only) occurrence.
pub open spec fn pos_of(sq: Seq<char>, c: char) -> int {
    sq.index_of_first(c)->Some_0
}

/// What the position of a contained letter looks like.
pub proof fn lemma_pos_of(sq: Seq<char>, c: char)
    requires
        sq.contains(c),
    ensures
        0 <= pos_of(sq, c) < sq.len(),
        sq[pos_of(sq, c)] == c,
        forall|j: int| 0 <= j < pos_of(sq, c) ==> sq[j] != c,
{
    sq.index_of_first_ensures(c);
}

/// In a duplicate-free square, the letter at `k` is located at `k`.
pub proof fn lemma_pos_of_index(sq: Seq<char>, k: int)
    requires
        sq.no_duplicates(),
        0 <= k < sq.len(),
    ensures
        pos_of(sq, sq[k]) == k,
        sq.contains(sq[k]),
{
    assert(sq.contains(sq[k]));
    sq.index_of_first_ensures(sq[k]);
    let idx = pos_of(sq, sq[k]);
    if idx < k {
        assert(sq[idx] != sq[k]);
    } else if idx > k {
        assert(sq[k] != sq[idx]);
    }
}

/// Splitting a grid position into row and column.
proof fn lemma_div_mod_5(r: int, c: int)
    requires
        0 <= r,
        0 <= c < 5,
    ensures
        (r * 5 + c) / 5 == r,
        (r * 5 + c) % 5 == c,
{
    lemma_fundamental_div_mod(r * 5 + c, 5);
    lemma_mod_bound(r * 5 + c, 5);
}

/// The additive offset of a direction: +1 to encrypt, +4 (that is, -1
/// modulo 5) to decrypt.
pub open spec fn offset_for(decrypt: bool) -> int {
    if decrypt {
        4
    } else {
        1
    }
}

/// The substitution of one ordered pair of distinct letters: shift the
/// columns inside a shared row, shift the rows inside a shared column,
/// and otherwise swap the two columns (the rectangle rule).
pub open spec fn transform_spec(sq: Seq<char>, a: char, b: char, off: int) -> (char, char) {
    let ia = pos_of(sq, a);
    let ib = pos_of(sq, b);
    let ra = ia / 5;
    let ca = ia % 5;
    let rb = ib / 5;
    let cb = ib % 5;
    if ra == rb {
        (sq[ra * 5 + (ca + off) % 5], sq[rb * 5 + (cb + off) % 5])
    } else if ca == cb {
        (sq[((ra + off) % 5) * 5 + ca], sq[((rb + off) % 5) * 5 + cb])
    } else {
        (sq[ra * 5 + cb], sq[rb * 5 + ca])
    }
}

/// Locates the row and column of a letter within the square.
///
/// Fails with `LetterNotInSquare` when the letter is absent; with a
/// well-built square that can only happen to the omitted letter, and
/// the pipeline rejects such texts before looking anything up.
pub fn index_2d(a: char, square: &KeySquare) -> (r: Result<(usize, usize), PlayfairError>)
    ensures
        match r {
            Ok(rc) => {
                &&& square@.contains(a)
                &&& rc.0 as int == pos_of(square@, a) / 5
                &&& rc.1 as int == pos_of(square@, a) % 5
            },
            Err(e) => !square@.contains(a) && e == PlayfairError::LetterNotInSquare(a),
        },
{
    let n = square.cells.len();
    for i in 0..n
        invariant
            n == square.cells.len(),
            forall|j: int| 0 <= j < i ==> square@[j] != a,
    {
        if square.cells[i] == a {
            proof {
                assert(square@[i as int] == a);
                lemma_first_index_unique(square@, a, i as int);
            }
            return Ok((i / 5, i % 5));
        }
    }
    proof {
        assert(!square@.contains(a)) by {
            if square@.contains(a) {
                let k = choose|k: int| 0 <= k < square@.len() && square@[k] == a;
                assert(square@[k] != a);
            }
        }
    }
    Err(PlayfairError::LetterNotInSquare(a))
}

/// The transformed pair stays inside the square's alphabet and keeps
/// its two letters distinct.
#[verifier::rlimit(100)]
pub proof fn lemma_transform_props(sq: Seq<char>, a: char, b: char, off: int)
    requires
        square_wf(sq),
        sq.contains(a),
        sq.contains(b),
        a != b,
        1 <= off <= 4,
    ensures
        sq.contains(transform_spec(sq, a, b, off).0),
        sq.contains(transform_spec(sq, a, b, off).1),
        transform_spec(sq, a, b, off).0 != transform_spec(sq, a, b, off).1,
{
    let ia = pos_of(sq, a);
    let ib = pos_of(sq, b);
    lemma_pos_of(sq, a);
    lemma_pos_of(sq, b);
    lemma_fundamental_div_mod(ia, 5);
    lemma_mod_bound(ia, 5);
    lemma_fundamental_div_mod(ib, 5);
    lemma_mod_bound(ib, 5);
    let ra = ia / 5;
    let ca = ia % 5;
    let rb = ib / 5;
    let cb = ib % 5;
    assert(ia != ib);
    if ra == rb {
        let na = (ca + off) % 5;
        let nb = (cb + off) % 5;
        lemma_mod_bound(ca + off, 5);
        lemma_mod_bound(cb + off, 5);
        lemma_div_mod_5(ra, na);
        lemma_div_mod_5(rb, nb);
        lemma_pos_of_index(sq, ra * 5 + na);
        lemma_pos_of_index(sq, rb * 5 + nb);
        assert(na != nb) by {
            lemma_fundamental_div_mod(ca + off, 5);
            lemma_fundamental_div_mod(cb + off, 5);
        }
    } else if ca == cb {
        let na = (ra + off) % 5;
        let nb = (rb + off) % 5;
        lemma_mod_bound(ra + off, 5);
        lemma_mod_bound(rb + off, 5);
        lemma_div_mod_5(na, ca);
        lemma_div_mod_5(nb, cb);
        lemma_pos_of_index(sq, na * 5 + ca);
        lemma_pos_of_index(sq, nb * 5 + cb);
        assert(na != nb) by {
            lemma_fundamental_div_mod(ra + off, 5);
            lemma_fundamental_div_mod(rb + off, 5);
        }
    } else {
        lemma_div_mod_5(ra, cb);
        lemma_div_mod_5(rb, ca);
        lemma_pos_of_index(sq, ra * 5 + cb);
        lemma_pos_of_index(sq, rb * 5 + ca);
    }
}

/// Law: the two directions undo each other pair by pair. The +1 and +4
/// offsets are exact inverses modulo 5, and the rectangle rule is its
/// own inverse, so transforming with one direction and then the other
/// restores the original pair, for every well-formed square.
#[verifier::rlimit(100)]
pub proof fn lemma_transform_inverse(sq: Seq<char>, a: char, b: char, off: int)
    requires
        square_wf(sq),
        sq.contains(a),
        sq.contains(b),
        a != b,
        off == 1 || off == 4,
    ensures
        transform_spec(sq, transform_spec(sq, a, b, off).0, transform_spec(sq, a, b, off).1, 5 - off)
            == (a, b),
{
    let ia = pos_of(sq, a);
    let ib = pos_of(sq, b);
    lemma_pos_of(sq, a);
    lemma_pos_of(sq, b);
    lemma_fundamental_div_mod(ia, 5);
    lemma_mod_bound(ia, 5);
    lemma_fundamental_div_mod(ib, 5);
    lemma_mod_bound(ib, 5);
    let ra = ia / 5;
    let ca = ia % 5;
    let rb = ib / 5;
    let cb = ib % 5;
    assert(ia != ib);
    let back = 5 - off;
    if ra == rb {
        let na = (ca + off) % 5;
        let nb = (cb + off) % 5;
        lemma_mod_bound(ca + off, 5);
        lemma_mod_bound(cb + off, 5);
        lemma_div_mod_5(ra, na);
        lemma_div_mod_5(rb, nb);
        lemma_pos_of_index(sq, ra * 5 + na);
        lemma_pos_of_index(sq, rb * 5 + nb);
        assert((na + back) % 5 == ca) by {
            lemma_fundamental_div_mod(ca + off, 5);
            let q = (ca + off) / 5;
            assert(na + back == 5 * (1 - q) + ca);
            lemma_mod_multiples_vanish(1 - q, ca, 5);
            lemma_small_mod(ca as nat, 5nat);
        }
        assert((nb + back) % 5 == cb) by {
            lemma_fundamental_div_mod(cb + off, 5);
            let q = (cb + off) / 5;
            assert(nb + back == 5 * (1 - q) + cb);
            lemma_mod_multiples_vanish(1 - q, cb, 5);
            lemma_small_mod(cb as nat, 5nat);
        }
        assert(sq[ra * 5 + ca] == a);
        assert(sq[rb * 5 + cb] == b);
    } else if ca == cb {
        let na = (ra + off) % 5;
        let nb = (rb + off) % 5;
        lemma_mod_bound(ra + off, 5);
        lemma_mod_bound(rb + off, 5);
        lemma_div_mod_5(na, ca);
        lemma_div_mod_5(nb, cb);
        lemma_pos_of_index(sq, na * 5 + ca);
        lemma_pos_of_index(sq, nb * 5 + cb);
        assert(na != nb) by {
            lemma_fundamental_div_mod(ra + off, 5);
            lemma_fundamental_div_mod(rb + off, 5);
        }
        assert((na + back) % 5 == ra) by {
            lemma_fundamental_div_mod(ra + off, 5);
            let q = (ra + off) / 5;
            assert(na + back == 5 * (1 - q) + ra);
            lemma_mod_multiples_vanish(1 - q, ra, 5);
            lemma_small_mod(ra as nat, 5nat);
        }
        assert((nb + back) % 5 == rb) by {
            lemma_fundamental_div_mod(rb + off, 5);
            let q = (rb + off) / 5;
            assert(nb + back == 5 * (1 - q) + rb);
            lemma_mod_multiples_vanish(1 - q, rb, 5);
            lemma_small_mod(rb as nat, 5nat);
        }
        assert(sq[ra * 5 + ca] == a);
        assert(sq[rb * 5 + cb] == b);
    } else {
        lemma_div_mod_5(ra, cb);
        lemma_div_mod_5(rb, ca);
        lemma_pos_of_index(sq, ra * 5 + cb);
        lemma_pos_of_index(sq, rb * 5 + ca);
        assert(sq[ra * 5 + ca] == a);
        assert(sq[rb * 5 + cb] == b);
    }
}

/// Law: inside a shared row, encryption moves each letter one column to
/// the right (modulo 5) and decryption one column to the left, while
/// both rows stay unchanged.
pub proof fn lemma_same_row_shift(sq: Seq<char>, a: char, b: char, off: int)
    requires
        square_wf(sq),
        sq.contains(a),
        sq.contains(b),
        a != b,
        pos_of(sq, a) / 5 == pos_of(sq, b) / 5,
        off == 1 || off == 4,
    ensures
        ({
            let x = transform_spec(sq, a, b, off).0;
            let y = transform_spec(sq, a, b, off).1;
            &&& pos_of(sq, x) / 5 == pos_of(sq, a) / 5
            &&& pos_of(sq, y) / 5 == pos_of(sq, b) / 5
            &&& pos_of(sq, x) % 5 == (pos_of(sq, a) % 5 + off) % 5
            &&& pos_of(sq, y) % 5 == (pos_of(sq, b) % 5 + off) % 5
            &&& off == 4 ==> (pos_of(sq, x) % 5 + 1) % 5 == pos_of(sq, a) % 5
            &&& off == 4 ==> (pos_of(sq, y) % 5 + 1) % 5 == pos_of(sq, b) % 5
        }),
{
    let ia = pos_of(sq, a);
    let ib = pos_of(sq, b);
    lemma_pos_of(sq, a);
    lemma_pos_of(sq, b);
    lemma_fundamental_div_mod(ia, 5);
    lemma_mod_bound(ia, 5);
    lemma_fundamental_div_mod(ib, 5);
    lemma_mod_bound(ib, 5);
    let ra = ia / 5;
    let ca = ia % 5;
    let rb = ib / 5;
    let cb = ib % 5;
    let na = (ca + off) % 5;
    let nb = (cb + off) % 5;
    lemma_mod_bound(ca + off, 5);
    lemma_mod_bound(cb + off, 5);
    lemma_div_mod_5(ra, na);
    lemma_div_mod_5(rb, nb);
    lemma_pos_of_index(sq, ra * 5 + na);
    lemma_pos_of_index(sq, rb * 5 + nb);
    if off == 4 {
        assert((na + 1) % 5 == ca) by {
            lemma_fundamental_div_mod(ca + 4, 5);
            let q = (ca + 4) / 5;
            assert(na + 1 == 5 * (1 - q) + ca);
            lemma_mod_multiples_vanish(1 - q, ca, 5);
            lemma_small_mod(ca as nat, 5nat);
        }
        assert((nb + 1) % 5 == cb) by {
            lemma_fundamental_div_mod(cb + 4, 5);
            let q = (cb + 4) / 5;
            assert(nb + 1 == 5 * (1 - q) + cb);
            lemma_mod_multiples_vanish(1 - q, cb, 5);
            lemma_small_mod(cb as nat, 5nat);
        }
    }
}

/// Law: a rectangle-case pair transformed in one direction and then the
/// other comes back unchanged; the column swap is its own inverse.
pub proof fn lemma_rectangle_round_trip(sq: Seq<char>, a: char, b: char)
    requires
        square_wf(sq),
        sq.contains(a),
        sq.contains(b),
        pos_of(sq, a) / 5 != pos_of(sq, b) / 5,
        pos_of(sq, a) % 5 != pos_of(sq, b) % 5,
    ensures
        transform_spec(sq, transform_spec(sq, a, b, 1).0, transform_spec(sq, a, b, 1).1, 4)
            == (a, b),
{
    lemma_pos_of(sq, a);
    lemma_pos_of(sq, b);
    assert(a != b);
    lemma_transform_inverse(sq, a, b, 1);
}

/// Transforms a single ordered pair of distinct letters, in the given
/// direction, through the substitution rules of `transform_spec`.
#[verifier::rlimit(100)]
pub fn playfair_crypt_pair(a: char, b: char, square: &KeySquare, decrypt: bool) -> (r: (
    char,
    char,
))
    requires
        square.wf(),
        a != b,
        square@.contains(a),
        square@.contains(b),
    ensures
        r == transform_spec(square@, a, b, offset_for(decrypt)),
{
    let delta: usize = if decrypt {
        4
    } else {
        1
    };
    proof {
        lemma_pos_of(square@, a);
        lemma_pos_of(square@, b);
        lemma_fundamental_div_mod(pos_of(square@, a), 5);
        lemma_mod_bound(pos_of(square@, a), 5);
        lemma_fundamental_div_mod(pos_of(square@, b), 5);
        lemma_mod_bound(pos_of(square@, b), 5);
    }
    let (a_row, a_col) = match index_2d(a, square) {
        Ok(rc) => rc,
        Err(_) => {
            proof {
                assert(false);
            }
            (0, 0)
        },
    };
    let (b_row, b_col) = match index_2d(b, square) {
        Ok(rc) => rc,
        Err(_) => {
            proof {
                assert(false);
            }
            (0, 0)
        },
    };
    if a_row == b_row {
        let na = (a_col + delta) % 5;
        let nb = (b_col + delta) % 5;
        proof {
            lemma_mod_bound(a_col + delta, 5);
            lemma_mod_bound(b_col + delta, 5);
        }
        (square.cells[a_row * 5 + na], square.cells[b_row * 5 + nb])
    } else if a_col == b_col {
        let na = (a_row + delta) % 5;
        let nb = (b_row + delta) % 5;
        proof {
            lemma_mod_bound(a_row + delta, 5);
            lemma_mod_bound(b_row + delta, 5);
        }
        (square.cells[na * 5 + a_col], square.cells[nb * 5 + b_col])
    } else {
        (square.cells[a_row * 5 + b_col], square.cells[b_row * 5 + a_col])
    }
}

/// The repeated letter of the first pair whose two letters are equal,
/// scanning consecutive non-overlapping pairs left to right.
pub open spec fn first_repeated_pair(s: Seq<char>) -> Option<char>
    decreases s.len(),
{
    if s.len() < 2 {
        None
    } else if s[0] == s[1] {
        Some(s[0])
    } else {
        first_repeated_pair(s.skip(2))
    }
}

/// The pair at index `k` (letters `2k` and `2k+1`) holds two distinct
/// letters.
pub open spec fn distinct_pair_at(s: Seq<char>, k: int) -> bool {
    s[2 * k] != s[2 * k + 1]
}

/// No pair is flagged exactly when every complete pair is distinct.
pub proof fn lemma_first_repeated_none(s: Seq<char>)
    ensures
        first_repeated_pair(s) is None <==> (forall|k: int|
            0 <= k && 2 * k + 1 < s.len() ==> distinct_pair_at(s, k)),
    decreases s.len(),
{
    if s.len() < 2 {
    } else if s[0] == s[1] {
        assert(!distinct_pair_at(s, 0));
    } else {
        let rest = s.skip(2);
        lemma_first_repeated_none(rest);
        if first_repeated_pair(s) is None {
            assert forall|k: int| 0 <= k && 2 * k + 1 < s.len() implies distinct_pair_at(s, k) by {
                if k > 0 {
                    assert(distinct_pair_at(rest, k - 1));
                    assert(rest[2 * (k - 1)] == s[2 * k]);
                    assert(rest[2 * (k - 1) + 1] == s[2 * k + 1]);
                }
            }
        }
        if forall|k: int| 0 <= k && 2 * k + 1 < s.len() ==> distinct_pair_at(s, k) {
            assert forall|k: int| 0 <= k && 2 * k + 1 < rest.len() implies distinct_pair_at(
                rest,
                k,
            ) by {
                assert(rest[2 * k] == s[2 * (k + 1)]);
                assert(rest[2 * k + 1] == s[2 * (k + 1) + 1]);
                assert(distinct_pair_at(s, k + 1));
            }
        }
    }
}

/// A text of odd length is padded with the filler letter 'Z'.
pub open spec fn pad_text(s: Seq<char>) -> Seq<char> {
    if s.len() % 2 == 1 {
        s.push('Z')
    } else {
        s
    }
}

/// The error an encryption or decryption reports, if any, in the order
/// the pipeline checks: a text character of the wrong class first, then
/// a repeated pair (of the padded text), then the keyword's failures,
/// then a text letter absent from the square (only ever the omitted
/// letter).
pub open spec fn crypt_error(text: Seq<char>, keyword: Seq<char>, omit: char) -> Option<
    PlayfairError,
> {
    match first_non_upper(text) {
        Some(c) => Some(PlayfairError::InvalidText(c)),
        None => match first_repeated_pair(pad_text(text)) {
            Some(c) => Some(PlayfairError::RepeatedAdjacentPair(c)),
            None => match keyword_error(keyword, omit) {
                Some(e) => Some(e),
                None => if pad_text(text).contains(omit) {
                    Some(PlayfairError::LetterNotInSquare(omit))
                } else {
                    None
                },
            },
        },
    }
}

/// The transformation of an even-length text: each consecutive pair is
/// substituted in order and the results are concatenated.
pub open spec fn crypt_seq(t: Seq<char>, sq: Seq<char>, off: int) -> Seq<char>
    decreases t.len(),
{
    if t.len() < 2 {
        Seq::empty()
    } else {
        let p = transform_spec(sq, t[0], t[1], off);
        seq![p.0, p.1] + crypt_seq(t.skip(2), sq, off)
    }
}

/// What a successful encryption or decryption returns: the padded text,
/// transformed pair by pair over the keyword's square.
pub open spec fn crypt_spec(text: Seq<char>, keyword: Seq<char>, omit: char, decrypt: bool) -> Seq<
    char,
> {
    crypt_seq(pad_text(text), key_square_seq(keyword, omit), offset_for(decrypt))
}

/// Pair substitution distributes over splitting the text at a pair
/// boundary.
proof fn lemma_crypt_seq_append(u: Seq<char>, v: Seq<char>, sq: Seq<char>, off: int)
    requires
        u.len() % 2 == 0,
    ensures
        crypt_seq(u + v, sq, off) == crypt_seq(u, sq, off) + crypt_seq(v, sq, off),
    decreases u.len(),
{
    if u.len() == 0 {
        assert(u + v =~= v);
        assert(crypt_seq(u, sq, off) + crypt_seq(v, sq, off) =~= crypt_seq(v, sq, off));
    } else {
        assert((u + v)[0] == u[0]);
        assert((u + v)[1] == u[1]);
        assert((u + v).skip(2) =~= u.skip(2) + v);
        lemma_crypt_seq_append(u.skip(2), v, sq, off);
        assert(crypt_seq(u + v, sq, off) =~= crypt_seq(u, sq, off) + crypt_seq(v, sq, off));
    }
}

/// An even-length text keeps its length under pair substitution.
pub proof fn lemma_crypt_seq_len(t: Seq<char>, sq: Seq<char>, off: int)
    requires
        t.len() % 2 == 0,
    ensures
        crypt_seq(t, sq, off).len() == t.len(),
    decreases t.len(),
{
    if t.len() >= 2 {
        lemma_crypt_seq_len(t.skip(2), sq, off);
    }
}

/// Law: over any well-formed square, transforming an even-length text
/// of square letters with distinct pairs and then transforming the
/// result with the opposite direction restores the text; the
/// intermediate result again consists of square letters in distinct
/// pairs.
#[verifier::rlimit(100)]
pub proof fn lemma_crypt_seq_round_trip(t: Seq<char>, sq: Seq<char>, off: int)
    requires
        square_wf(sq),
        t.len() % 2 == 0,
        off == 1 || off == 4,
        forall|i: int| 0 <= i < t.len() ==> sq.contains(#[trigger] t[i]),
        forall|k: int| 0 <= k && 2 * k + 1 < t.len() ==> distinct_pair_at(t, k),
    ensures
        crypt_seq(t, sq, off).len() == t.len(),
        forall|i: int| 0 <= i < t.len() ==> sq.contains(#[trigger] crypt_seq(t, sq, off)[i]),
        forall|k: int|
            0 <= k && 2 * k + 1 < t.len() ==> distinct_pair_at(crypt_seq(t, sq, off), k),
        crypt_seq(crypt_seq(t, sq, off), sq, 5 - off) == t,
    decreases t.len(),
{
    let c = crypt_seq(t, sq, off);
    if t.len() == 0 {
        assert(c =~= Seq::<char>::empty());
        assert(crypt_seq(c, sq, 5 - off) =~= t);
    } else {
        let rest = t.skip(2);
        assert(distinct_pair_at(t, 0));
        assert(t[0] != t[1]);
        assert forall|i: int| 0 <= i < rest.len() implies sq.contains(#[trigger] rest[i]) by {
            assert(rest[i] == t[i + 2]);
        }
        assert forall|k: int| 0 <= k && 2 * k + 1 < rest.len() implies distinct_pair_at(
            rest,
            k,
        ) by {
            assert(rest[2 * k] == t[2 * (k + 1)]);
            assert(rest[2 * k + 1] == t[2 * (k + 1) + 1]);
            assert(distinct_pair_at(t, k + 1));
        }
        lemma_crypt_seq_round_trip(rest, sq, off);
        let p = transform_spec(sq, t[0], t[1], off);
        lemma_transform_props(sq, t[0], t[1], off);
        lemma_transform_inverse(sq, t[0], t[1], off);
        let crest = crypt_seq(rest, sq, off);
        assert(c == seq![p.0, p.1] + crest);
        assert(c[0] == p.0 && c[1] == p.1);
        assert forall|i: int| 0 <= i < t.len() implies sq.contains(#[trigger] c[i]) by {
            if i >= 2 {
                assert(c[i] == crest[i - 2]);
            }
        }
        assert forall|k: int| 0 <= k && 2 * k + 1 < t.len() implies distinct_pair_at(c, k) by {
            if k > 0 {
                assert(c[2 * k] == crest[2 * (k - 1)]);
                assert(c[2 * k + 1] == crest[2 * (k - 1) + 1]);
                assert(distinct_pair_at(crest, k - 1));
            }
        }
        assert(c.skip(2) =~= crest);
        assert(transform_spec(sq, c[0], c[1], 5 - off) == (t[0], t[1]));
        assert(crypt_seq(c, sq, 5 - off) =~= t) by {
            assert(crypt_seq(c, sq, 5 - off) == seq![t[0], t[1]] + crypt_seq(crest, sq, 5 - off));
        }
    }
}

/// Law: decryption inverts encryption. For every text, keyword and
/// omitted letter that encryption accepts, the ciphertext is again a
/// text that the pipeline accepts, and decrypting it yields the padded
/// plaintext: the plaintext itself when its length was even, and the
/// plaintext with one filler letter appended when it was odd.
pub proof fn lemma_encrypt_decrypt_round_trip(text: Seq<char>, keyword: Seq<char>, omit: char)
    requires
        is_upper(omit),
        crypt_error(text, keyword, omit) is None,
    ensures
        ({
            let sq = key_square_seq(keyword, omit);
            let cipher = crypt_seq(pad_text(text), sq, 1);
            &&& crypt_error(cipher, keyword, omit) is None
            &&& cipher.len() == pad_text(text).len()
            &&& crypt_seq(pad_text(cipher), sq, 4) == pad_text(text)
            &&& (text.len() % 2 == 0 ==> crypt_seq(pad_text(cipher), sq, 4) == text)
            &&& (text.len() % 2 == 1 ==> crypt_seq(pad_text(cipher), sq, 4) == text.push('Z'))
        }),
{
    let sq = key_square_seq(keyword, omit);
    let pt = pad_text(text);
    let cipher = crypt_seq(pt, sq, 1);
    lemma_key_square_wf(keyword, omit);
    lemma_first_non_upper_none(text);
    assert forall|i: int| 0 <= i < pt.len() implies sq.contains(#[trigger] pt[i]) by {
        assert(is_upper(pt[i]));
        assert(pt[i] != omit) by {
            if pt[i] == omit {
                assert(pt.contains(omit));
            }
        }
    }
    lemma_first_repeated_none(pt);
    lemma_crypt_seq_round_trip(pt, sq, 1);
    assert(pad_text(cipher) == cipher);
    assert forall|i: int| 0 <= i < cipher.len() implies is_upper(#[trigger] cipher[i]) by {
        assert(sq.contains(cipher[i]));
        let k = choose|k: int| 0 <= k < sq.len() && sq[k] == cipher[i];
        assert(is_upper(sq[k]));
    }
    lemma_first_non_upper_none(cipher);
    lemma_first_repeated_none(cipher);
    assert(!cipher.contains(omit)) by {
        if cipher.contains(omit) {
            let i = choose|i: int| 0 <= i < cipher.len() && cipher[i] == omit;
            assert(sq.contains(cipher[i]));
        }
    }
}

/// Validates, pads, splits and transforms a text in the given
/// direction, composing the key-square builder and the pair
/// transformer.
fn crypt(text: &str, key: &str, decrypt: bool, omit: char) -> (r: Result<String, PlayfairError>)
    requires
        is_upper(omit),
    ensures
        match r {
            Ok(out) => {
                &&& crypt_error(text@, key@, omit) is None
                &&& out@ == crypt_spec(text@, key@, omit, decrypt)
                &&& out@.len() == pad_text(text@).len()
            },
            Err(e) => crypt_error(text@, key@, omit) == Some(e),
        },
{
    let ghost off = offset_for(decrypt);
    let tv = str_to_chars(text);
    let n = tv.len();
    proof {
        assert(text@.skip(0) =~= text@);
    }
    for i in 0..n
        invariant
            n == tv.len(),
            tv@ == text@,
            first_non_upper(text@.skip(i as int)) == first_non_upper(text@),
            forall|j: int| 0 <= j < i ==> is_upper(#[trigger] text@[j]),
    {
        let u = tv[i] as u32;
        proof {
            assert(text@.skip(i as int)[0] == text@[i as int]);
            assert(text@.skip(i as int).skip(1) =~= text@.skip(i + 1));
        }
        if u < 65 || u > 90 {
            return Err(PlayfairError::InvalidText(tv[i]));
        }
    }
    proof {
        assert(text@.skip(n as int) =~= Seq::<char>::empty());
    }
    let mut pv = tv;
    if pv.len() % 2 == 1 {
        pv.push('Z');
    }
    proof {
        assert(pv@ == pad_text(text@));
        assert(pv@.len() % 2 == 0);
        assert(forall|i: int| 0 <= i < pv@.len() ==> is_upper(#[trigger] pv@[i]));
        assert(pv@.skip(0) =~= pv@);
    }
    let m = pv.len();
    let half = m / 2;
    proof {
        lemma_fundamental_div_mod(m as int, 2);
        lemma_mod_bound(m as int, 2);
    }
    for k in 0..half
        invariant
            m == pv.len(),
            half == m / 2,
            m % 2 == 0,
            pv@ == pad_text(text@),
            first_non_upper(text@) is None,
            first_repeated_pair(pv@.skip(2 * (k as int))) == first_repeated_pair(pv@),
    {
        proof {
            lemma_fundamental_div_mod(m as int, 2);
        }
        let a = pv[2 * k];
        let b = pv[2 * k + 1];
        proof {
            assert(pv@.skip(2 * (k as int))[0] == pv@[2 * (k as int)]);
            assert(pv@.skip(2 * (k as int))[1] == pv@[2 * (k as int) + 1]);
            assert(pv@.skip(2 * (k as int)).skip(2) =~= pv@.skip(2 * (k as int) + 2));
        }
        if a == b {
            proof {
                assert(pv@.skip(2 * (k as int)).len() >= 2);
                assert(first_repeated_pair(pv@.skip(2 * (k as int))) == Some(a));
                assert(first_repeated_pair(pad_text(text@)) == Some(a));
                assert(first_non_upper(text@) is None);
            }
            return Err(PlayfairError::RepeatedAdjacentPair(a));
        }
    }
    proof {
        lemma_fundamental_div_mod(m as int, 2);
        assert(2 * ((m / 2) as int) == m as int);
        assert(pv@.skip(m as int) =~= Seq::<char>::empty());
        assert(first_repeated_pair(pv@) is None);
    }
    let square = match generate_key(key, omit) {
        Ok(s) => s,
        Err(e) => {
            return Err(e);
        },
    };
    match find_first(&pv, omit) {
        Some(_) => {
            return Err(PlayfairError::LetterNotInSquare(omit));
        },
        None => {},
    }
    proof {
        lemma_first_repeated_none(pv@);
        assert forall|i: int| 0 <= i < pv@.len() implies square@.contains(#[trigger] pv@[i]) by {
            assert(pv@[i] != omit) by {
                if pv@[i] == omit {
                    assert(pv@.contains(omit));
                }
            }
        }
    }
    let mut out: Vec<char> = Vec::new();
    for k in 0..half
        invariant
            m == pv.len(),
            half == m / 2,
            m % 2 == 0,
            square.wf(),
            square@ == key_square_seq(key@, omit),
            forall|i: int| 0 <= i < pv@.len() ==> square@.contains(#[trigger] pv@[i]),
            forall|j: int| 0 <= j && 2 * j + 1 < pv@.len() ==> distinct_pair_at(pv@, j),
            off == offset_for(decrypt),
            out@ == crypt_seq(pv@.take(2 * (k as int)), square@, off),
    {
        proof {
            lemma_fundamental_div_mod(m as int, 2);
        }
        let a = pv[2 * k];
        let b = pv[2 * k + 1];
        proof {
            assert(distinct_pair_at(pv@, k as int));
        }
        let (x, y) = playfair_crypt_pair(a, b, &square, decrypt);
        out.push(x);
        out.push(y);
        proof {
            let u = pv@.take(2 * (k as int));
            assert(u.len() % 2 == 0);
            lemma_crypt_seq_append(u, seq![a, b], square@, off);
            assert(seq![a, b].skip(2) =~= Seq::<char>::empty());
            assert(crypt_seq(Seq::<char>::empty(), square@, off) =~= Seq::<char>::empty());
            assert(seq![a, b][0] == a && seq![a, b][1] == b);
            assert(crypt_seq(seq![a, b], square@, off) =~= seq![x, y]);
            assert(pv@.take(2 * (k as int) + 2) =~= u + seq![a, b]);
            assert(out@ =~= crypt_seq(pv@.take(2 * (k as int) + 2), square@, off));
        }
    }
    proof {
        lemma_fundamental_div_mod(m as int, 2);
        assert(pv@.take(2 * (half as int)) =~= pv@);
        lemma_crypt_seq_len(pv@, square@, off);
    }
    Ok(chars_to_string(&out))
}

/// Encrypts `text` with the key square derived from `key` and the
/// omitted letter, using the Playfair cipher.
///
/// The text must consist of uppercase letters; it is padded with 'Z'
/// when its length is odd, and no pair of the padded text may hold two
/// equal letters. On success the result is exactly the padded text
/// transformed pair by pair; otherwise the first failing check's error
/// is returned.
pub fn encrypt(text: &str, key: &str, omit: char) -> (r: Result<String, PlayfairError>)
    requires
        is_upper(omit),
    ensures
        match r {
            Ok(out) => {
                &&& crypt_error(text@, key@, omit) is None
                &&& out@ == crypt_spec(text@, key@, omit, false)
                &&& out@.len() == pad_text(text@).len()
            },
            Err(e) => crypt_error(text@, key@, omit) == Some(e),
        },
{
    crypt(text, key, false, omit)
}

/// Decrypts `text` with the key square derived from `key` and the
/// omitted letter, using the Playfair cipher.
///
/// Decryption runs the same pipeline as encryption with the opposite
/// offset, so it restores what `encrypt` produced (see
/// `lemma_encrypt_decrypt_round_trip`).
pub fn decrypt(text: &str, key: &str, omit: char) -> (r: Result<String, PlayfairError>)
    requires
        is_upper(omit),
    ensures
        match r {
            Ok(out) => {
                &&& crypt_error(text@, key@, omit) is None
                &&& out@ == crypt_spec(text@, key@, omit, true)
                &&& out@.len() == pad_text(text@).len()
            },
            Err(e) => crypt_error(text@, key@, omit) == Some(e),
        },
{
    crypt(text, key, true, omit)
}

} // verus!
