//! The deterministic keystream cipher: AES-128 in counter mode over a fixed,
//! embedded initialization vector.
//!
//! The IV is a constant shared by every invocation under a given key, so two
//! payloads encrypted under the same key reuse the same keystream prefix — a
//! classical stream-cipher weakness that is kept deliberately: names and
//! payloads must decode losslessly with only the key, no stored nonce.
//! Encrypting and decrypting are the same XOR transform, and
//! [`lemma_ctr_transform_involutive`] proves that applying it twice gives
//! the input back.

use vstd::prelude::*;

use aes::cipher::generic_array::GenericArray;
use aes::cipher::{BlockEncrypt, KeyInit};
use aes::Aes128;

verus! {

/// What AES-128 returns for one 16-byte block under a 16-byte key. The
/// function itself is far too large to state; all that the contracts rely
/// on is that it depends on the key and the block alone.
pub uninterp spec fn aes128_block(key: Seq<u8>, block: Seq<u8>) -> Seq<u8>;

/// Relies on `aes::Aes128` (`KeyInit::new`, `BlockEncrypt::encrypt_block`):
/// the AES-128 encryption of one block, a pure function of key and block.
/// `GenericArray::from_slice` panics on any length but 16, which the
/// `requires` rules out.
#[verifier::external_body]
fn aes128_encrypt_block(key: &[u8], block: &[u8]) -> (r: Vec<u8>)
    requires
        key@.len() == 16,
        block@.len() == 16,
    ensures
        r@ == aes128_block(key@, block@),
        r@.len() == 16,
{
    let cipher = Aes128::new(GenericArray::from_slice(key));
    let mut b = GenericArray::clone_from_slice(block);
    cipher.encrypt_block(&mut b);
    b.to_vec()
}

/// The constant initialization vector that seeds the counter.
pub open spec fn iv_seq() -> Seq<u8> {
    seq![57u8, 206u8, 202u8, 7u8, 215u8, 17u8, 43u8, 219u8, 131u8, 171u8, 7u8, 214u8, 85u8, 12u8, 129u8, 176u8]
}

fn make_iv() -> (r: Vec<u8>)
    ensures
        r@ == iv_seq(),
{
    let mut v: Vec<u8> = Vec::new();
    v.push(57);
    v.push(206);
    v.push(202);
    v.push(7);
    v.push(215);
    v.push(17);
    v.push(43);
    v.push(219);
    v.push(131);
    v.push(171);
    v.push(7);
    v.push(214);
    v.push(85);
    v.push(12);
    v.push(129);
    v.push(176);
    proof {
        assert(v@ =~= iv_seq());
    }
    v
}

/// Adding 1 to a counter taken as a big-endian integer: increment the last
/// byte, carrying into earlier bytes on overflow.
pub open spec fn inc_bytes(c: Seq<u8>) -> Seq<u8>
    decreases c.len(),
{
    if c.len() == 0 {
        c
    } else if c.last() == 255 {
        inc_bytes(c.drop_last()).push(0)
    } else {
        c.update(c.len() - 1, (c.last() + 1) as u8)
    }
}

pub proof fn lemma_inc_bytes_len(c: Seq<u8>)
    ensures
        inc_bytes(c).len() == c.len(),
    decreases c.len(),
{
    if c.len() > 0 && c.last() == 255 {
        lemma_inc_bytes_len(c.drop_last());
    }
}

/// When everything from `i` on is `255`, the increment zeroes that suffix
/// and carries into the prefix.
proof fn lemma_inc_bytes_suffix(s: Seq<u8>, i: int)
    requires
        0 <= i <= s.len(),
        forall|j: int| i <= j < s.len() ==> s[j] == 255,
    ensures
        inc_bytes(s) == inc_bytes(s.take(i)) + Seq::new((s.len() - i) as nat, |k: int| 0u8),
    decreases s.len() - i,
{
    if i == s.len() {
        assert(s.take(i) =~= s);
        assert(inc_bytes(s.take(i)) + Seq::new((s.len() - i) as nat, |k: int| 0u8) =~= inc_bytes(
            s,
        ));
    } else {
        assert(s.last() == 255);
        assert(s.drop_last() =~= s.take(s.len() - 1));
        lemma_inc_bytes_suffix(s.take(s.len() - 1), i);
        assert(s.take(s.len() - 1).take(i) =~= s.take(i));
        assert((inc_bytes(s.take(i)) + Seq::new((s.len() - 1 - i) as nat, |k: int| 0u8)).push(0u8)
            =~= inc_bytes(s.take(i)) + Seq::new((s.len() - i) as nat, |k: int| 0u8));
    }
}

/// Increments the counter in place: +1 as a big-endian integer, carrying
/// from the last byte toward the first.
pub fn increment_counter(counter: &mut Vec<u8>)
    ensures
        final(counter)@ == inc_bytes(old(counter)@),
{
    let ghost c0 = old(counter)@;
    let mut i: usize = counter.len();
    while i > 0
        invariant
            c0 == old(counter)@,
            i <= counter@.len(),
            counter@.len() == c0.len(),
            counter@.take(i as int) == c0.take(i as int),
            forall|j: int| i <= j < counter@.len() ==> #[trigger] counter@[j] == 0,
            forall|j: int| i <= j < c0.len() ==> #[trigger] c0[j] == 255,
        decreases i,
    {
        i = i - 1;
        let b = counter[i];
        assert(b == c0[i as int]) by {
            assert(counter@.take(i + 1)[i as int] == c0.take(i + 1)[i as int]);
        }
        if b == 255 {
            let ghost mid = counter@;
            counter[i] = 0;
            proof {
                assert forall|k: int| 0 <= k < i implies counter@[k] == #[trigger] c0[k] by {
                    assert(mid.take(i + 1)[k] == c0.take(i + 1)[k]);
                }
                assert(counter@.take(i as int) =~= c0.take(i as int));
                assert forall|j: int| i <= j < counter@.len() implies #[trigger] counter@[j]
                    == 0 by {
                    if j != i {
                        assert(mid[j] == 0);
                        assert(counter@[j] == mid[j]);
                    }
                }
            }
        } else {
            let ghost mid = counter@;
            counter[i] = b + 1;
            proof {
                lemma_inc_bytes_suffix(c0, i + 1);
                let pre = c0.take(i + 1);
                lemma_inc_bytes_len(pre);
                assert(pre.last() == b && b != 255);
                assert(inc_bytes(pre) == pre.update(i as int, (b + 1) as u8));
                assert forall|k: int| 0 <= k < i implies counter@[k] == #[trigger] c0[k] by {
                    assert(mid.take(i + 1)[k] == c0.take(i + 1)[k]);
                }
                assert forall|j: int| i + 1 <= j < counter@.len() implies #[trigger] counter@[j]
                    == 0 by {
                    assert(mid[j] == 0);
                    assert(counter@[j] == mid[j]);
                }
                assert(counter@ =~= inc_bytes(pre) + Seq::new(
                    (c0.len() - i - 1) as nat,
                    |k: int| 0u8,
                ));
                assert(counter@ =~= inc_bytes(c0));
            }
            return;
        }
    }
    proof {
        lemma_inc_bytes_suffix(c0, 0);
        assert(c0.take(0) =~= Seq::<u8>::empty());
        assert(inc_bytes(c0.take(0)).len() == 0);
        assert(counter@ =~= inc_bytes(c0.take(0)) + Seq::new(c0.len(), |k: int| 0u8));
        assert(counter@ =~= inc_bytes(c0));
    }
}

/// The counter block used for chunk `n`: the IV incremented `n` times.
pub open spec fn ctr_counter(n: nat) -> Seq<u8>
    decreases n,
{
    if n == 0 {
        iv_seq()
    } else {
        inc_bytes(ctr_counter((n - 1) as nat))
    }
}

pub proof fn lemma_ctr_counter_len(n: nat)
    ensures
        ctr_counter(n).len() == 16,
    decreases n,
{
    if n > 0 {
        lemma_ctr_counter_len((n - 1) as nat);
        lemma_inc_bytes_len(ctr_counter((n - 1) as nat));
    }
}

/// Byte `i` of the keystream under `key`: the AES encryption of the `i/16`th
/// counter block, at position `i % 16`.
pub open spec fn keystream_byte(key: Seq<u8>, i: int) -> u8 {
    aes128_block(key, ctr_counter((i / 16) as nat))[i % 16]
}

/// The counter-mode transform: XOR each byte with its keystream byte. The
/// same transform encrypts and decrypts.
pub open spec fn ctr_transform(key: Seq<u8>, data: Seq<u8>) -> Seq<u8> {
    Seq::new(data.len(), |i: int| data[i] ^ keystream_byte(key, i))
}

/// The transform is its own inverse: applying it twice under one key gives
/// the input back, whatever the key and the data.
pub proof fn lemma_ctr_transform_involutive(key: Seq<u8>, data: Seq<u8>)
    ensures
        ctr_transform(key, ctr_transform(key, data)) == data,
{
    assert forall|a: u8, b: u8| (a ^ b) ^ b == a by {
        assert(forall|a: u8, b: u8| #[trigger] ((a ^ b) ^ b) == a) by (bit_vector);
    }
    assert(ctr_transform(key, ctr_transform(key, data)) =~= data);
}

/// Encrypts (or decrypts) `plaintext` under `key`: XOR with the keystream
/// of AES-128 counter blocks seeded from the fixed IV.
pub fn encrypt_ctr(key: &[u8; 16], plaintext: &[u8]) -> (r: Vec<u8>)
    ensures
        r@ == ctr_transform(key@, plaintext@),
{
    let ilen = plaintext.len();
    assert(ilen == plaintext@.len());
    let mut ciphertext: Vec<u8> = Vec::new();
    let mut counter: Vec<u8> = make_iv();
    let ghost mut chunks: nat = 0nat;
    proof {
        lemma_ctr_counter_len(0nat);
    }
    let mut pos: usize = 0;
    while pos < ilen
        invariant
            ilen == plaintext@.len(),
            pos <= ilen,
            pos == 16 * chunks || pos == ilen,
            counter@ == ctr_counter(chunks),
            counter@.len() == 16,
            ciphertext@.len() == pos,
            forall|i: int|
                0 <= i < pos ==> #[trigger] ciphertext@[i] == (plaintext@[i] ^ keystream_byte(
                    key@,
                    i,
                )),
        decreases ilen - pos,
    {
        assert(pos == 16 * chunks);
        let block = aes128_encrypt_block(key.as_slice(), counter.as_slice());
        let csize: usize = if ilen - pos < 16 {
            ilen - pos
        } else {
            16
        };
        let mut j: usize = 0;
        while j < csize
            invariant
                j <= csize,
                csize <= 16,
                pos == 16 * chunks,
                pos + csize <= ilen,
                ilen == plaintext@.len(),
                block@ == aes128_block(key@, ctr_counter(chunks)),
                block@.len() == 16,
                ciphertext@.len() == pos + j,
                forall|i: int|
                    0 <= i < pos + j ==> #[trigger] ciphertext@[i] == (plaintext@[i]
                        ^ keystream_byte(key@, i)),
            decreases csize - j,
        {
            let c = plaintext[pos + j] ^ block[j];
            proof {
                let i = (pos + j) as int;
                vstd::arithmetic::div_mod::lemma_fundamental_div_mod_converse(
                    i,
                    16,
                    chunks as int,
                    j as int,
                );
                assert(keystream_byte(key@, i) == block@[j as int]);
            }
            ciphertext.push(c);
            j = j + 1;
        }
        increment_counter(&mut counter);
        proof {
            chunks = chunks + 1;
            lemma_ctr_counter_len(chunks);
        }
        pos = pos + csize;
    }
    proof {
        assert(ciphertext@ =~= ctr_transform(key@, plaintext@));
    }
    ciphertext
}

/// Decrypts `ciphertext` under `key`: counter mode is symmetric, so this is
/// the very transform that `encrypt_ctr` applies.
pub fn decrypt_ctr(key: &[u8; 16], ciphertext: &[u8]) -> (r: Vec<u8>)
    ensures
        r@ == ctr_transform(key@, ciphertext@),
{
    encrypt_ctr(key, ciphertext)
}

} // verus!
