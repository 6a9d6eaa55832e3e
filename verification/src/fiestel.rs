//! A toy two-sided Feistel network over pairs of bytes.
//!
//! Each subkey of the key drives one round; decryption applies the
//! rounds with the subkeys in reverse order, which restores the block
//! exactly (see `lemma_block_round_trip`).

use vstd::prelude::*;

verus! {

/// A block: two bytes, mixed as the left and right half.
pub type Block = (u8, u8);

/// One byte of key material, consumed by a single round.
pub type Subkey = u8;

/// A key: any number of subkeys.
pub type Key = [Subkey];

/// Addition of two bytes, wrapping modulo 256.
pub open spec fn add256(u: u8, k: u8) -> u8 {
    ((u + k) % 256) as u8
}

/// A byte with its bits in reverse order.
pub open spec fn rev8(u: u8) -> u8 {
    ((u & 0x01) << 7) | ((u & 0x02) << 5) | ((u & 0x04) << 3) | ((u & 0x08) << 1) | ((u & 0x10)
        >> 1) | ((u & 0x20) >> 3) | ((u & 0x40) >> 5) | ((u & 0x80) >> 7)
}

/// The additive inverse of a byte modulo 256.
pub open spec fn neg256(u: u8) -> u8 {
    if u == 0 {
        0
    } else {
        (256 - u) as u8
    }
}

/// What one round's mixing function returns: the subkey added in, the
/// bits reversed, and the result negated modulo 256.
pub open spec fn round_spec(u: u8, k: u8) -> u8 {
    neg256(rev8(add256(u, k)))
}

/// Maps some byte to some other byte, driven by one subkey.
fn round_function(u: u8, k: u8) -> (r: u8)
    ensures
        r == round_spec(u, k),
{
    let s: u8 = (((u as u16) + (k as u16)) % 256) as u8;
    let v: u8 = ((s & 0x01) << 7) | ((s & 0x02) << 5) | ((s & 0x04) << 3) | ((s & 0x08) << 1) | ((s
        & 0x10) >> 1) | ((s & 0x20) >> 3) | ((s & 0x40) >> 5) | ((s & 0x80) >> 7);
    if v == 0 {
        0
    } else {
        255 - v + 1
    }
}

/// The two halves after running the rounds for the given subkeys, in
/// order: each round turns `(l, r)` into `(r, l xor round(r, key))`.
pub open spec fn fiestel_rounds(l: u8, r: u8, keys: Seq<u8>) -> (u8, u8)
    decreases keys.len(),
{
    if keys.len() == 0 {
        (l, r)
    } else {
        fiestel_rounds(r, l ^ round_spec(r, keys[0]), keys.skip(1))
    }
}

/// What the cipher returns: the halves after all rounds, swapped.
pub open spec fn fiestel_spec(b: (u8, u8), keys: Seq<u8>) -> (u8, u8) {
    let p = fiestel_rounds(b.0, b.1, keys);
    (p.1, p.0)
}

/// Appending one subkey runs one more round after the others.
proof fn lemma_rounds_snoc(l: u8, r: u8, ks: Seq<u8>, k: u8)
    ensures
        fiestel_rounds(l, r, ks.push(k)) == ({
            let p = fiestel_rounds(l, r, ks);
            (p.1, p.0 ^ round_spec(p.1, k))
        }),
    decreases ks.len(),
{
    if ks.len() == 0 {
        assert(ks.push(k)[0] == k);
        assert(ks.push(k).skip(1) =~= Seq::<u8>::empty());
        assert(fiestel_rounds(l, r, ks) == (l, r));
        assert(fiestel_rounds(r, l ^ round_spec(r, k), Seq::<u8>::empty()) == (
            r,
            l ^ round_spec(r, k),
        ));
    } else {
        assert(ks.push(k)[0] == ks[0]);
        assert(ks.push(k).skip(1) =~= ks.skip(1).push(k));
        lemma_rounds_snoc(r, l ^ round_spec(r, ks[0]), ks.skip(1), k);
    }
}

/// Feeding the swapped output back through the rounds with the subkeys
/// reversed undoes them.
proof fn lemma_rounds_inverse(l: u8, r: u8, ks: Seq<u8>)
    ensures
        ({
            let p = fiestel_rounds(l, r, ks);
            fiestel_rounds(p.1, p.0, ks.reverse()) == (r, l)
        }),
    decreases ks.len(),
{
    if ks.len() == 0 {
        assert(ks.reverse() =~= Seq::<u8>::empty());
    } else {
        let ks0 = ks.drop_last();
        let k = ks.last();
        assert(ks =~= ks0.push(k));
        lemma_rounds_snoc(l, r, ks0, k);
        lemma_rounds_inverse(l, r, ks0);
        let p0 = fiestel_rounds(l, r, ks0);
        let p = fiestel_rounds(l, r, ks);
        let f = round_spec(p0.1, k);
        let a0 = p0.0;
        assert((a0 ^ f) ^ f == a0) by (bit_vector);
        assert(ks.reverse() =~= seq![k] + ks0.reverse());
        assert((seq![k] + ks0.reverse())[0] == k);
        assert((seq![k] + ks0.reverse()).skip(1) =~= ks0.reverse());
        assert(fiestel_rounds(p.1, p.0, ks.reverse()) == fiestel_rounds(
            p0.1,
            p0.0,
            ks0.reverse(),
        ));
    }
}

/// Law: decrypting an encrypted block with the same key restores the
/// block, for every block and every key.
pub proof fn lemma_block_round_trip(b: (u8, u8), keys: Seq<u8>)
    ensures
        fiestel_spec(fiestel_spec(b, keys), keys.reverse()) == b,
{
    lemma_rounds_inverse(b.0, b.1, keys);
}

/// Runs the rounds over the subkeys, forward or reversed.
fn fiestel_cipher(b: Block, key: &Key, rev: bool) -> (r: Block)
    ensures
        r == fiestel_spec(
            b,
            if rev {
                key@.reverse()
            } else {
                key@
            },
        ),
{
    let ghost keys: Seq<u8> = if rev {
        key@.reverse()
    } else {
        key@
    };
    let n = key.len();
    let mut l = b.0;
    let mut r = b.1;
    for i in 0..n
        invariant
            n == key@.len(),
            keys == (if rev {
                key@.reverse()
            } else {
                key@
            }),
            keys.len() == n,
            (l, r) == fiestel_rounds(b.0, b.1, keys.take(i as int)),
    {
        let subkey = if rev {
            key[n - 1 - i]
        } else {
            key[i]
        };
        proof {
            assert(keys[i as int] == subkey);
            assert(keys.take(i + 1) =~= keys.take(i as int).push(keys[i as int]));
            lemma_rounds_snoc(b.0, b.1, keys.take(i as int), subkey);
        }
        let f = round_function(r, subkey);
        let nl = r;
        let nr = l ^ f;
        l = nl;
        r = nr;
    }
    proof {
        assert(keys.take(n as int) =~= keys);
    }
    (r, l)
}

/// Encrypts a block: one Feistel round for each subkey, in order.
pub fn encrypt_block(b: Block, key: &Key) -> (r: Block)
    ensures
        r == fiestel_spec(b, key@),
{
    fiestel_cipher(b, key, false)
}

/// Performs the same rounds as `encrypt_block`, but with the subkeys
/// in reverse order; this inverts `encrypt_block` exactly (see
/// `lemma_block_round_trip`).
pub fn decrypt_block(b: Block, key: &Key) -> (r: Block)
    ensures
        r == fiestel_spec(b, key@.reverse()),
{
    fiestel_cipher(b, key, true)
}

} // verus!
