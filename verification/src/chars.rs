//! Shared helpers for working with texts as sequences of characters:
//! conversions between `&str`, `Vec<char>` and `String`, first-occurrence
//! search, and modular index arithmetic for alphabet rotations.

use vstd::prelude::*;
use vstd::arithmetic::div_mod::{
    lemma_add_mod_noop, lemma_fundamental_div_mod, lemma_mod_bound, lemma_mod_multiples_vanish,
    lemma_mod_twice, lemma_small_mod,
};

verus! {

/// Collects the characters of a string into a vector.
pub fn str_to_chars(s: &str) -> (v: Vec<char>)
    ensures
        v@ == s@,
{
    let n: usize = s.unicode_len();
    let mut v: Vec<char> = Vec::new();
    for i in 0..n
        invariant
            n == s@.len(),
            v@ == s@.take(i as int),
    {
        let c = s.get_char(i);
        v.push(c);
        proof {
            assert(v@ =~= s@.take(i + 1));
        }
    }
    proof {
        assert(v@ =~= s@);
    }
    v
}

/// Relies on `String::push`: appends exactly the given character.
#[verifier::external_body]
fn push_char(s: &mut String, c: char)
    ensures
        final(s)@ == old(s)@.push(c),
{
    s.push(c)
}

/// Collects a vector of characters into a string.
pub fn chars_to_string(v: &Vec<char>) -> (s: String)
    ensures
        s@ == v@,
{
    let mut s = String::new();
    for i in 0..v.len()
        invariant
            s@ == v@.take(i as int),
    {
        push_char(&mut s, v[i]);
        proof {
            assert(s@ =~= v@.take(i + 1));
        }
    }
    proof {
        assert(s@ =~= v@);
    }
    s
}

/// Linear search for the first occurrence of `c` in `v`.
pub fn find_first(v: &Vec<char>, c: char) -> (r: Option<usize>)
    ensures
        match r {
            Some(i) => i < v@.len() && v@[i as int] == c && (forall|j: int|
                0 <= j < i ==> v@[j] != c),
            None => !v@.contains(c),
        },
{
    for i in 0..v.len()
        invariant
            forall|j: int| 0 <= j < i ==> v@[j] != c,
    {
        if v[i] == c {
            return Some(i);
        }
    }
    proof {
        assert(!v@.contains(c)) by {
            if v@.contains(c) {
                let k = choose|k: int| 0 <= k < v@.len() && v@[k] == c;
                assert(v@[k] != c);
            }
        }
    }
    None
}

/// A first occurrence found by linear search is the `index_of_first`.
pub proof fn lemma_first_index_unique(s: Seq<char>, c: char, i: int)
    requires
        0 <= i < s.len(),
        s[i] == c,
        forall|j: int| 0 <= j < i ==> s[j] != c,
    ensures
        s.index_of_first(c) == Some(i),
{
    assert(s.contains(c)) by {
        assert(0 <= i < s.len() && s[i] == c);
    }
    s.index_of_first_ensures(c);
    let idx = s.index_of_first(c)->Some_0;
    if idx < i {
        assert(s[idx] != c);
    } else if idx > i {
        assert(s[i] != c);
    }
}

/// Rotating an index of a duplicate-free cycle lands on a position
/// whose letter is first found right there, and rotating back by the
/// opposite amount returns to the start.
pub proof fn lemma_cycle_round_trip(s: Seq<char>, i: int, rot: int)
    requires
        s.no_duplicates(),
        0 <= i < s.len(),
    ensures
        ({
            let j = (i + rot) % (s.len() as int);
            &&& 0 <= j < s.len()
            &&& s.index_of_first(s[j]) == Some(j)
            &&& (j + (-rot)) % (s.len() as int) == i
        }),
{
    let n = s.len() as int;
    let j = (i + rot) % n;
    lemma_mod_bound(i + rot, n);
    assert(s.index_of_first(s[j]) == Some(j)) by {
        assert(s.contains(s[j]));
        s.index_of_first_ensures(s[j]);
        let idx = s.index_of_first(s[j])->Some_0;
        if idx < j {
            assert(s[idx] != s[j]);
        }
    }
    lemma_fundamental_div_mod(i + rot, n);
    let q = (i + rot) / n;
    assert(n * (-q) == -(n * q)) by (nonlinear_arith);
    assert(j + (-rot) == n * (-q) + i);
    lemma_mod_multiples_vanish(-q, i, n);
    lemma_small_mod(i as nat, s.len());
}

/// Rotates the index `i` by `rot` places inside a cycle of length `len`,
/// in the Euclidean sense: the result is `(i + rot) mod len`, always in
/// `0 .. len`.
pub fn shift_index(i: usize, rot: i32, len: usize) -> (r: usize)
    requires
        0 < len,
        i < len,
        len <= 0x7fff_ffff,
    ensures
        r < len,
        r as int == (i + rot) % (len as int),
{
    let len_u: u64 = len as u64;
    let ghost m: int = len as int;
    let s: u64 = if rot >= 0 {
        let s0 = (rot as u64) % len_u;
        proof {
            lemma_add_mod_noop(i as int, rot as int, m);
            lemma_add_mod_noop(i as int, (rot as int) % m, m);
            lemma_small_mod(i as nat, len as nat);
            lemma_mod_twice(rot as int, m);
            assert((i + s0) % m == (i + rot) % m);
        }
        s0
    } else {
        let n: u64 = (-(rot as i64)) as u64;
        let md: u64 = n % len_u;
        let s0: u64 = (len_u - md) % len_u;
        proof {
            let q = (n as int) / m;
            lemma_fundamental_div_mod(n as int, m);
            assert(m * (-q) == -(m * q)) by (nonlinear_arith);
            assert(m * (-q - 1) == -(m * q) - m) by (nonlinear_arith);
            assert(rot as int == m * (-q) + (-(md as int)));
            if md == 0 {
                lemma_mod_multiples_vanish(-q, i as int, m);
                assert((i + rot) % m == (i as int) % m);
                lemma_small_mod(i as nat, len as nat);
                lemma_small_mod(0nat, len as nat);
                assert(s0 as int == 0) by {
                    lemma_mod_twice(0int, m);
                    assert((m % m) == 0) by {
                        lemma_mod_multiples_vanish(1int, 0int, m);
                    }
                }
                assert((i + s0) % m == (i + rot) % m);
            } else {
                lemma_small_mod((len - md as usize) as nat, len as nat);
                assert(s0 as int == m - md);
                assert(i + rot == (i + s0) + m * (-q - 1));
                lemma_mod_multiples_vanish(-q - 1, i as int + s0 as int, m);
                assert((i + rot) % m == (i + s0) % m);
            }
        }
        s0
    };
    let r64: u64 = ((i as u64) + s) % len_u;
    proof {
        lemma_mod_bound(i as int + s as int, m);
    }
    r64 as usize
}

} // verus!
