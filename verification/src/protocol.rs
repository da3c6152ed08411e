//! Secure-command encoding and the encrypted B-CAS relay framing.

use crate::crypto::{aes128_decrypt_block, aes128_encrypt_block, aes_block_decrypt, aes_block_encrypt, sha1_digest, sha1_spec};
use crate::Error;
use vstd::prelude::*;
use vstd::slice::slice_to_vec;

verus! {

pub const SECURE_COMMAND_SIZE: usize = 512;
pub const SECURE_PAYLOAD_SIZE: usize = 496;

/// `data` with the bytes of each of the first `count / 2` pairs exchanged.
pub open spec fn swap_pairs_spec(data: Seq<u8>, count: int) -> Seq<u8> {
    Seq::new(data.len(), |i: int|
        if i < count {
            if i % 2 == 0 { data[i + 1] } else { data[i - 1] }
        } else {
            data[i]
        })
}

/// Swapping the first `n` bytes (`n` even, within the data) exchanges the
/// two bytes of every 16-bit word among them, however long the run, and
/// leaves every later byte in place.
pub proof fn law_swap_pairs_pointwise(data: Seq<u8>, n: int)
    requires
        0 <= n <= data.len(),
        n % 2 == 0,
    ensures
        swap_pairs_spec(data, n).len() == data.len(),
        forall|w: int| 0 <= w < n / 2 ==> #[trigger] swap_pairs_spec(data, n)[2 * w] == data[2 * w + 1]
            && swap_pairs_spec(data, n)[2 * w + 1] == data[2 * w],
        forall|i: int| n <= i < data.len() ==> #[trigger] swap_pairs_spec(data, n)[i] == data[i],
{
}

/// Exchanges the two bytes of each 16-bit word in the first `count` bytes of
/// `data` (`count` is clamped to the length).  An odd clamped count is
/// refused and leaves `data` as it was.
pub fn swap_words(data: &mut [u8], count: usize) -> (r: Result<(), Error>)
    ensures
        ({
            let n = if count < old(data)@.len() { count as int } else { old(data)@.len() as int };
            &&& n % 2 != 0 ==> r == Err::<(), Error>(Error::InvalidArgument("word-swap length must be even"))
                && final(data)@ == old(data)@
            &&& n % 2 == 0 ==> r is Ok && final(data)@ == swap_pairs_spec(old(data)@, n)
            &&& n % 2 == 0 ==> final(data)@.len() == old(data)@.len() && forall|i: int|
                0 <= i < old(data)@.len() ==> #[trigger] final(data)@[i] == (if i < n && i % 2 == 0 {
                    old(data)@[i + 1]
                } else if i < n {
                    old(data)@[i - 1]
                } else {
                    old(data)@[i]
                })
        }),
{
    let count = if count < data.len() { count } else { data.len() };
    if count % 2 != 0 {
        return Err(Error::InvalidArgument("word-swap length must be even"));
    }
    let ghost orig = data@;
    let mut i: usize = 0;
    while i < count
        invariant
            count <= data@.len(),
            count % 2 == 0,
            i % 2 == 0,
            i <= count,
            data@.len() == orig.len(),
            forall|k: int| 0 <= k < i ==> data@[k] == swap_pairs_spec(orig, count as int)[k],
            forall|k: int| i <= k < data@.len() ==> data@[k] == orig[k],
        decreases count - i,
    {
        let a = data[i];
        let b = data[i + 1];
        data[i] = b;
        data[i + 1] = a;
        i = i + 2;
    }
    assert(data@ =~= swap_pairs_spec(orig, count as int));
    Ok(())
}


/// Bytewise exclusive or of two equally long byte strings.
pub open spec fn xor_spec(a: Seq<u8>, b: Seq<u8>) -> Seq<u8> {
    Seq::new(a.len(), |i: int| a[i] ^ b[i])
}

/// The all-zero initialisation vector of the relay's CBC mode.
pub open spec fn zero_block() -> Seq<u8> {
    Seq::new(16, |i: int| 0u8)
}

/// AES-128-CBC encryption of the whole blocks of `data`, chained from `iv`.
pub open spec fn cbc_encrypt_spec(key: Seq<u8>, iv: Seq<u8>, data: Seq<u8>) -> Seq<u8>
    decreases data.len(),
{
    if data.len() < 16 {
        Seq::empty()
    } else {
        let c = aes_block_encrypt(key, xor_spec(data.take(16), iv));
        c + cbc_encrypt_spec(key, c, data.skip(16))
    }
}

/// AES-128-CBC decryption of the whole blocks of `data`, chained from `iv`.
pub open spec fn cbc_decrypt_spec(key: Seq<u8>, iv: Seq<u8>, data: Seq<u8>) -> Seq<u8>
    decreases data.len(),
{
    if data.len() < 16 {
        Seq::empty()
    } else {
        xor_spec(aes_block_decrypt(key, data.take(16)), iv) + cbc_decrypt_spec(key, data.take(16), data.skip(16))
    }
}

/// XOR of two 16-byte blocks.
fn xor_block(a: &[u8], b: &[u8]) -> (r: [u8; 16])
    requires
        a@.len() == 16,
        b@.len() == 16,
    ensures
        r@ == xor_spec(a@, b@),
{
    let mut r = [0u8; 16];
    let mut i: usize = 0;
    while i < 16
        invariant
            i <= 16,
            a@.len() == 16,
            b@.len() == 16,
            forall|k: int| 0 <= k < i ==> r@[k] == a@[k] ^ b@[k],
        decreases 16 - i,
    {
        r[i] = a[i] ^ b[i];
        i = i + 1;
    }
    assert(r@ =~= xor_spec(a@, b@));
    r
}

proof fn lemma_xor_involution(a: Seq<u8>, b: Seq<u8>)
    requires
        a.len() == b.len(),
    ensures
        xor_spec(xor_spec(a, b), b) == a,
{
    assert forall|i: int| 0 <= i < a.len() implies #[trigger] xor_spec(xor_spec(a, b), b)[i] == a[i] by {
        let x = a[i];
        let y = b[i];
        assert((x ^ y) ^ y == x) by (bit_vector);
    }
    assert(xor_spec(xor_spec(a, b), b) =~= a);
}

/// Block `i` of `s`: its bytes `16 * i` up to `16 * i + 16`.
pub open spec fn block_at(s: Seq<u8>, i: int) -> Seq<u8> {
    s.subrange(16 * i, 16 * i + 16)
}

/// The block that block `i` of `s` is chained to: the one before it, or
/// `iv` for the first.
pub open spec fn chained_block(iv: Seq<u8>, s: Seq<u8>, i: int) -> Seq<u8> {
    if i == 0 {
        iv
    } else {
        block_at(s, i - 1)
    }
}

/// `out` is `data` encrypted in CBC mode from `iv`, block by block: it is as
/// long as `data`, and each of its blocks is the AES-128 encryption of the
/// data block XORed with the ciphertext block before it (`iv` for the first).
pub open spec fn cbc_encrypted_blocks(key: Seq<u8>, iv: Seq<u8>, data: Seq<u8>, out: Seq<u8>) -> bool {
    &&& out.len() == data.len()
    &&& forall|i: int|
        0 <= i < data.len() / 16 ==> #[trigger] block_at(out, i) == aes_block_encrypt(
            key,
            xor_spec(block_at(data, i), chained_block(iv, out, i)),
        )
}

/// `out` is `data` decrypted in CBC mode from `iv`, block by block: it is as
/// long as `data`, and each of its blocks is the AES-128 decryption of the
/// data block XORed with the data block before it (`iv` for the first).
pub open spec fn cbc_decrypted_blocks(key: Seq<u8>, iv: Seq<u8>, data: Seq<u8>, out: Seq<u8>) -> bool {
    &&& out.len() == data.len()
    &&& forall|i: int|
        0 <= i < data.len() / 16 ==> #[trigger] block_at(out, i) == xor_spec(
            aes_block_decrypt(key, block_at(data, i)),
            chained_block(iv, data, i),
        )
}

/// CBC encryption of whole blocks, block by block.
pub proof fn lemma_cbc_encrypt_blocks(key: Seq<u8>, iv: Seq<u8>, data: Seq<u8>)
    requires
        data.len() % 16 == 0,
    ensures
        cbc_encrypted_blocks(key, iv, data, cbc_encrypt_spec(key, iv, data)),
    decreases data.len(),
{
    if data.len() >= 16 {
        let c = aes_block_encrypt(key, xor_spec(data.take(16), iv));
        let rest_in = data.skip(16);
        let rest = cbc_encrypt_spec(key, c, rest_in);
        lemma_cbc_encrypt_blocks(key, c, rest_in);
        let out = cbc_encrypt_spec(key, iv, data);
        assert(out == c + rest);
        assert forall|i: int| 0 <= i < data.len() / 16 implies #[trigger] block_at(out, i) == aes_block_encrypt(
            key,
            xor_spec(block_at(data, i), chained_block(iv, out, i)),
        ) by {
            if i == 0 {
                assert(block_at(out, 0) =~= c);
                assert(block_at(data, 0) =~= data.take(16));
            } else {
                assert(block_at(out, i) =~= block_at(rest, i - 1));
                assert(block_at(data, i) =~= block_at(rest_in, i - 1));
                if i == 1 {
                    assert(block_at(out, 0) =~= c);
                } else {
                    assert(block_at(out, i - 1) =~= block_at(rest, i - 2));
                }
                assert(block_at(rest, i - 1) == aes_block_encrypt(
                    key,
                    xor_spec(block_at(rest_in, i - 1), chained_block(c, rest, i - 1)),
                ));
            }
        }
    }
}

/// CBC decryption of whole blocks, block by block.
pub proof fn lemma_cbc_decrypt_blocks(key: Seq<u8>, iv: Seq<u8>, data: Seq<u8>)
    requires
        data.len() % 16 == 0,
    ensures
        cbc_decrypted_blocks(key, iv, data, cbc_decrypt_spec(key, iv, data)),
    decreases data.len(),
{
    if data.len() >= 16 {
        let head = data.take(16);
        let p = xor_spec(aes_block_decrypt(key, head), iv);
        let rest_in = data.skip(16);
        let rest = cbc_decrypt_spec(key, head, rest_in);
        lemma_cbc_decrypt_blocks(key, head, rest_in);
        let out = cbc_decrypt_spec(key, iv, data);
        assert(out == p + rest);
        assert forall|i: int| 0 <= i < data.len() / 16 implies #[trigger] block_at(out, i) == xor_spec(
            aes_block_decrypt(key, block_at(data, i)),
            chained_block(iv, data, i),
        ) by {
            if i == 0 {
                assert(block_at(out, 0) =~= p);
                assert(block_at(data, 0) =~= head);
            } else {
                assert(block_at(out, i) =~= block_at(rest, i - 1));
                assert(block_at(data, i) =~= block_at(rest_in, i - 1));
                if i == 1 {
                    assert(block_at(data, 0) =~= head);
                } else {
                    assert(block_at(data, i - 1) =~= block_at(rest_in, i - 2));
                }
                assert(block_at(rest, i - 1) == xor_spec(
                    aes_block_decrypt(key, block_at(rest_in, i - 1)),
                    chained_block(head, rest_in, i - 1),
                ));
            }
        }
    }
}

/// AES-128 in CBC mode with an all-zero IV, as the device's secure channel
/// uses it.  Fails unless the key has 16 bytes and the input is a whole
/// number of blocks.  The output has the input's length and is chained
/// block by block from the all-zero IV (`cbc_encrypted_blocks`,
/// `cbc_decrypted_blocks`).  Encrypting and then decrypting under the same
/// key gives the input back, and so does decrypting and then encrypting.
pub fn aes_cbc(key: &[u8], input: &[u8], decrypt: bool) -> (r: Result<Vec<u8>, Error>)
    ensures
        (key@.len() != 16 || input@.len() % 16 != 0) ==> r == Err::<Vec<u8>, Error>(
            Error::InvalidArgument("AES-128 CBC requires a 16-byte key and block-aligned input"),
        ),
        (key@.len() == 16 && input@.len() % 16 == 0) ==> r is Ok,
        r matches Ok(out) ==> out@.len() == input@.len(),
        r matches Ok(out) ==> out@ == (if decrypt {
            cbc_decrypt_spec(key@, zero_block(), input@)
        } else {
            cbc_encrypt_spec(key@, zero_block(), input@)
        }),
        r matches Ok(out) ==> input@ == (if decrypt {
            cbc_encrypt_spec(key@, zero_block(), out@)
        } else {
            cbc_decrypt_spec(key@, zero_block(), out@)
        }),
        r matches Ok(out) ==> (if decrypt {
            cbc_decrypted_blocks(key@, zero_block(), input@, out@)
        } else {
            cbc_encrypted_blocks(key@, zero_block(), input@, out@)
        }),
{
    if key.len() != 16 || input.len() % 16 != 0 {
        return Err(Error::InvalidArgument("AES-128 CBC requires a 16-byte key and block-aligned input"));
    }
    let iv = [0u8; 16];
    assert(iv@ =~= zero_block());
    if decrypt {
        proof { lemma_cbc_decrypt_blocks(key@, zero_block(), input@); }
        Ok(cbc_decrypt_blocks(key, &iv, input))
    } else {
        proof { lemma_cbc_encrypt_blocks(key@, zero_block(), input@); }
        Ok(cbc_encrypt_blocks(key, &iv, input))
    }
}

/// The chaining value after encrypting the whole blocks of `data` from `iv`:
/// the last ciphertext block, or `iv` when there is none.
pub open spec fn cbc_encrypt_chain(key: Seq<u8>, iv: Seq<u8>, data: Seq<u8>) -> Seq<u8>
    decreases data.len(),
{
    if data.len() < 16 {
        iv
    } else {
        cbc_encrypt_chain(key, aes_block_encrypt(key, xor_spec(data.take(16), iv)), data.skip(16))
    }
}

/// The chaining value after decrypting the whole blocks of `data` from `iv`:
/// the last ciphertext block, or `iv` when there is none.
pub open spec fn cbc_decrypt_chain(iv: Seq<u8>, data: Seq<u8>) -> Seq<u8>
    decreases data.len(),
{
    if data.len() < 16 {
        iv
    } else {
        cbc_decrypt_chain(data.take(16), data.skip(16))
    }
}

proof fn lemma_cbc_encrypt_append(key: Seq<u8>, iv: Seq<u8>, a: Seq<u8>, b: Seq<u8>)
    requires
        a.len() % 16 == 0,
    ensures
        cbc_encrypt_spec(key, iv, a + b) == cbc_encrypt_spec(key, iv, a) + cbc_encrypt_spec(
            key,
            cbc_encrypt_chain(key, iv, a),
            b,
        ),
        cbc_encrypt_chain(key, iv, a + b) == cbc_encrypt_chain(key, cbc_encrypt_chain(key, iv, a), b),
    decreases a.len(),
{
    if a.len() < 16 {
        assert(a + b =~= b);
        assert(cbc_encrypt_spec(key, iv, a) =~= Seq::<u8>::empty());
        assert(Seq::<u8>::empty() + cbc_encrypt_spec(key, iv, b) =~= cbc_encrypt_spec(key, iv, b));
    } else {
        assert((a + b).take(16) =~= a.take(16));
        assert((a + b).skip(16) =~= a.skip(16) + b);
        let c = aes_block_encrypt(key, xor_spec(a.take(16), iv));
        lemma_cbc_encrypt_append(key, c, a.skip(16), b);
        assert(c + (cbc_encrypt_spec(key, c, a.skip(16)) + cbc_encrypt_spec(key, cbc_encrypt_chain(key, c, a.skip(16)), b))
            =~= (c + cbc_encrypt_spec(key, c, a.skip(16))) + cbc_encrypt_spec(key, cbc_encrypt_chain(key, c, a.skip(16)), b));
    }
}

proof fn lemma_cbc_decrypt_append(key: Seq<u8>, iv: Seq<u8>, a: Seq<u8>, b: Seq<u8>)
    requires
        a.len() % 16 == 0,
    ensures
        cbc_decrypt_spec(key, iv, a + b) == cbc_decrypt_spec(key, iv, a) + cbc_decrypt_spec(
            key,
            cbc_decrypt_chain(iv, a),
            b,
        ),
        cbc_decrypt_chain(iv, a + b) == cbc_decrypt_chain(cbc_decrypt_chain(iv, a), b),
    decreases a.len(),
{
    if a.len() < 16 {
        assert(a + b =~= b);
        assert(cbc_decrypt_spec(key, iv, a) =~= Seq::<u8>::empty());
        assert(Seq::<u8>::empty() + cbc_decrypt_spec(key, iv, b) =~= cbc_decrypt_spec(key, iv, b));
    } else {
        assert((a + b).take(16) =~= a.take(16));
        assert((a + b).skip(16) =~= a.skip(16) + b);
        let p = xor_spec(aes_block_decrypt(key, a.take(16)), iv);
        lemma_cbc_decrypt_append(key, a.take(16), a.skip(16), b);
        assert(p + (cbc_decrypt_spec(key, a.take(16), a.skip(16)) + cbc_decrypt_spec(key, cbc_decrypt_chain(a.take(16), a.skip(16)), b))
            =~= (p + cbc_decrypt_spec(key, a.take(16), a.skip(16))) + cbc_decrypt_spec(key, cbc_decrypt_chain(a.take(16), a.skip(16)), b));
    }
}

proof fn lemma_cbc_one_block(key: Seq<u8>, iv: Seq<u8>, blk: Seq<u8>)
    requires
        blk.len() == 16,
    ensures
        cbc_encrypt_spec(key, iv, blk) == aes_block_encrypt(key, xor_spec(blk, iv)),
        cbc_encrypt_chain(key, iv, blk) == aes_block_encrypt(key, xor_spec(blk, iv)),
        cbc_decrypt_spec(key, iv, blk) == xor_spec(aes_block_decrypt(key, blk), iv),
        cbc_decrypt_chain(iv, blk) == blk,
{
    assert(blk.take(16) =~= blk);
    assert(blk.skip(16) =~= Seq::<u8>::empty());
    let c = aes_block_encrypt(key, xor_spec(blk, iv));
    assert(cbc_encrypt_spec(key, c, blk.skip(16)) == Seq::<u8>::empty());
    assert(cbc_encrypt_chain(key, c, blk.skip(16)) == c);
    assert(c + Seq::<u8>::empty() =~= c);
    let p = xor_spec(aes_block_decrypt(key, blk), iv);
    assert(cbc_decrypt_spec(key, blk.take(16), blk.skip(16)) == Seq::<u8>::empty());
    assert(cbc_decrypt_chain(blk.take(16), blk.skip(16)) == blk.take(16));
    assert(p + Seq::<u8>::empty() =~= p);
}

/// Copies a 16-byte slice into an array.
pub(crate) fn block_of(b: &[u8]) -> (r: [u8; 16])
    requires
        b@.len() == 16,
    ensures
        r@ == b@,
{
    let mut r = [0u8; 16];
    let mut k: usize = 0;
    while k < 16
        invariant
            k <= 16,
            b@.len() == 16,
            forall|j: int| 0 <= j < k ==> r@[j] == b@[j],
        decreases 16 - k,
    {
        r[k] = b[k];
        k = k + 1;
    }
    assert(r@ =~= b@);
    r
}

/// CBC encryption of the whole blocks of `input`, chained from `iv`.
pub(crate) fn cbc_encrypt_blocks(key: &[u8], iv: &[u8], input: &[u8]) -> (out: Vec<u8>)
    requires
        key@.len() == 16,
        iv@.len() == 16,
        input@.len() % 16 == 0,
    ensures
        out@.len() == input@.len(),
        out@ == cbc_encrypt_spec(key@, iv@, input@),
        input@ == cbc_decrypt_spec(key@, iv@, out@),
{
    let mut out: Vec<u8> = Vec::new();
    let mut chain = block_of(iv);
    let len = input.len();
    let mut i: usize = 0;
    assert(input@.take(0) =~= Seq::<u8>::empty());
    assert(out@ =~= Seq::<u8>::empty());
    while i < len
        invariant
            len == input@.len(),
            len % 16 == 0,
            i % 16 == 0,
            i <= len,
            key@.len() == 16,
            iv@.len() == 16,
            out@.len() == i,
            out@ == cbc_encrypt_spec(key@, iv@, input@.take(i as int)),
            chain@ == cbc_encrypt_chain(key@, iv@, input@.take(i as int)),
            input@.take(i as int) == cbc_decrypt_spec(key@, iv@, out@),
            chain@ == cbc_decrypt_chain(iv@, out@),
        decreases len - i,
    {
        let block = &input[i..i + 16];
        let x = xor_block(block, &chain);
        let c = aes128_encrypt_block(key, &x);
        assert(c@ =~= aes_block_encrypt(key@, x@));
        assert(aes_block_decrypt(key@, c@) =~= x@);
        proof {
            let ghost pre = input@.take(i as int);
            assert(input@.take(i + 16) =~= pre + block@);
            lemma_cbc_encrypt_append(key@, iv@, pre, block@);
            lemma_cbc_one_block(key@, chain@, block@);
            lemma_cbc_decrypt_append(key@, iv@, out@, c@);
            lemma_cbc_one_block(key@, chain@, c@);
            lemma_xor_involution(block@, chain@);
        }
        let ghost old_out = out@;
        out.extend_from_slice(&c);
        assert(out@ =~= old_out + c@);
        chain = c;
        i = i + 16;
    }
    assert(input@.take(len as int) =~= input@);
    out
}

/// CBC decryption of the whole blocks of `input`, chained from `iv`.
pub(crate) fn cbc_decrypt_blocks(key: &[u8], iv: &[u8], input: &[u8]) -> (out: Vec<u8>)
    requires
        key@.len() == 16,
        iv@.len() == 16,
        input@.len() % 16 == 0,
    ensures
        out@.len() == input@.len(),
        out@ == cbc_decrypt_spec(key@, iv@, input@),
        input@ == cbc_encrypt_spec(key@, iv@, out@),
{
    let mut out: Vec<u8> = Vec::new();
    let mut chain = block_of(iv);
    let len = input.len();
    let mut i: usize = 0;
    assert(input@.take(0) =~= Seq::<u8>::empty());
    assert(out@ =~= Seq::<u8>::empty());
    while i < len
        invariant
            len == input@.len(),
            len % 16 == 0,
            i % 16 == 0,
            i <= len,
            key@.len() == 16,
            iv@.len() == 16,
            out@.len() == i,
            out@ == cbc_decrypt_spec(key@, iv@, input@.take(i as int)),
            chain@ == cbc_decrypt_chain(iv@, input@.take(i as int)),
            input@.take(i as int) == cbc_encrypt_spec(key@, iv@, out@),
            chain@ == cbc_encrypt_chain(key@, iv@, out@),
        decreases len - i,
    {
        let block = &input[i..i + 16];
        let d = aes128_decrypt_block(key, block);
        assert(d@ =~= aes_block_decrypt(key@, block@));
        assert(aes_block_encrypt(key@, d@) =~= block@);
        let p = xor_block(&d, &chain);
        proof {
            let ghost pre = input@.take(i as int);
            assert(input@.take(i + 16) =~= pre + block@);
            lemma_cbc_decrypt_append(key@, iv@, pre, block@);
            lemma_cbc_one_block(key@, chain@, block@);
            lemma_cbc_encrypt_append(key@, iv@, out@, p@);
            lemma_cbc_one_block(key@, chain@, p@);
            lemma_xor_involution(d@, chain@);
        }
        let ghost old_out = out@;
        out.extend_from_slice(&p);
        assert(out@ =~= old_out + p@);
        chain = block_of(block);
        i = i + 16;
    }
    assert(input@.take(len as int) =~= input@);
    out
}

/// `data` with the byte order of every 32-bit word reversed.
pub open spec fn swap_dwords_spec(data: Seq<u8>) -> Seq<u8> {
    Seq::new(data.len(), |i: int| data[i - i % 4 + (3 - i % 4)])
}

/// Reverses the byte order of each 32-bit word of `data`; the length must be
/// a multiple of four.
pub fn swap_dwords(data: &[u8]) -> (r: Result<Vec<u8>, Error>)
    ensures
        data@.len() % 4 != 0 ==> r == Err::<Vec<u8>, Error>(
            Error::InvalidArgument("dword-swap length must be a multiple of four"),
        ),
        data@.len() % 4 == 0 ==> (r matches Ok(out) && out@ == swap_dwords_spec(data@)),
{
    if data.len() % 4 != 0 {
        return Err(Error::InvalidArgument("dword-swap length must be a multiple of four"));
    }
    let len = data.len();
    let mut out: Vec<u8> = Vec::new();
    let mut i: usize = 0;
    while i < len
        invariant
            len == data@.len(),
            len % 4 == 0,
            i % 4 == 0,
            i <= len,
            out@ =~= swap_dwords_spec(data@).take(i as int),
        decreases len - i,
    {
        out.push(data[i + 3]);
        out.push(data[i + 2]);
        out.push(data[i + 1]);
        out.push(data[i]);
        assert(out@ =~= swap_dwords_spec(data@).take(i + 4));
        i = i + 4;
    }
    assert(swap_dwords_spec(data@).take(len as int) =~= swap_dwords_spec(data@));
    Ok(out)
}

/// The device's encoding of a 32-bit field of a secure command: the high
/// 16-bit half first, each half little-endian.
pub open spec fn command_word_bytes(w: u32) -> Seq<u8> {
    seq![(w >> 16u32) as u8, (w >> 24u32) as u8, w as u8, (w >> 8u32) as u8]
}

/// The 512-byte secure command: command word, four zero bytes, parameter
/// count, four 0xff bytes, then at most 496 parameter bytes, zero padded.
pub open spec fn secure_command_spec(command: u32, parameter_count: u32, params: Seq<u8>) -> Seq<u8> {
    Seq::new(SECURE_COMMAND_SIZE as nat, |i: int|
        if i < 4 {
            command_word_bytes(command)[i]
        } else if 8 <= i < 12 {
            command_word_bytes(parameter_count)[i - 8]
        } else if 12 <= i < 16 {
            0xffu8
        } else if 16 <= i && i - 16 < params.len() && i - 16 < SECURE_PAYLOAD_SIZE {
            params[i - 16]
        } else {
            0u8
        })
}

/// Encodes a secure command; parameters beyond 496 bytes are dropped.
pub fn build_secure_command(command: u32, parameter_count: u32, params: &[u8]) -> (out: [u8; SECURE_COMMAND_SIZE])
    ensures
        out@ == secure_command_spec(command, parameter_count, params@),
{
    let mut out = [0u8; SECURE_COMMAND_SIZE];
    out[0] = (command >> 16) as u8;
    out[1] = (command >> 24) as u8;
    out[2] = command as u8;
    out[3] = (command >> 8) as u8;
    out[8] = (parameter_count >> 16) as u8;
    out[9] = (parameter_count >> 24) as u8;
    out[10] = parameter_count as u8;
    out[11] = (parameter_count >> 8) as u8;
    out[12] = 0xff;
    out[13] = 0xff;
    out[14] = 0xff;
    out[15] = 0xff;
    let n = if params.len() < SECURE_PAYLOAD_SIZE { params.len() } else { SECURE_PAYLOAD_SIZE };
    let mut i: usize = 0;
    while i < n
        invariant
            n <= SECURE_PAYLOAD_SIZE,
            n <= params@.len(),
            n == params@.len() || n == SECURE_PAYLOAD_SIZE,
            i <= n,
            forall|k: int| 0 <= k < 16 ==> out@[k] == secure_command_spec(command, parameter_count, params@)[k],
            forall|k: int| 16 <= k < 16 + i ==> out@[k] == params@[k - 16],
            forall|k: int| 16 + i <= k < SECURE_COMMAND_SIZE ==> out@[k] == 0u8,
        decreases n - i,
    {
        out[16 + i] = params[i];
        i = i + 1;
    }
    assert(out@ =~= secure_command_spec(command, parameter_count, params@));
    out
}

/// The concatenation of the byte strings of `parts`.
pub open spec fn concat_parts(parts: Seq<&[u8]>) -> Seq<u8> {
    parts.map_values(|p: &[u8]| p@).flatten()
}

/// SHA-1 over the concatenation of `parts`.
pub fn sha1_bytes(parts: &[&[u8]]) -> (out: [u8; 20])
    requires
        concat_parts(parts@).len() <= usize::MAX,
    ensures
        out@ == sha1_spec(concat_parts(parts@)),
{
    let mut data: Vec<u8> = Vec::new();
    let mut i: usize = 0;
    assert(parts@.take(0).map_values(|p: &[u8]| p@) =~= Seq::<Seq<u8>>::empty());
    while i < parts.len()
        invariant
            i <= parts@.len(),
            concat_parts(parts@).len() <= usize::MAX,
            data@ == parts@.take(i as int).map_values(|p: &[u8]| p@).flatten(),
        decreases parts@.len() - i,
    {
        let part = parts[i];
        proof {
            let ghost m = parts@.take(i + 1).map_values(|p: &[u8]| p@);
            assert(m =~= parts@.take(i as int).map_values(|p: &[u8]| p@).push(part@));
            parts@.take(i as int).map_values(|p: &[u8]| p@).lemma_flatten_push(part@);
            let ghost all = parts@.map_values(|p: &[u8]| p@);
            assert(all =~= m + parts@.skip(i + 1).map_values(|p: &[u8]| p@));
            vstd::seq_lib::lemma_flatten_concat(m, parts@.skip(i + 1).map_values(|p: &[u8]| p@));
        }
        let ghost old_data = data@;
        data.extend_from_slice(part);
        assert(data@ =~= old_data + part@);
        i = i + 1;
    }
    assert(parts@.take(parts@.len() as int) =~= parts@);
    sha1_digest(&data)
}

/// The header that opens every plaintext relay frame.
pub open spec fn relay_header() -> Seq<u8> {
    seq![0xffu8, 0u8, 0xffu8, 0u8]
}

/// Length of the relay frame for an APDU of `n` bytes: header plus the APDU,
/// rounded up to a whole 16-bit word.
pub open spec fn relay_total_len(n: int) -> int {
    (n + 5) / 2 * 2
}

/// `relay_total_len` rounded up to whole AES blocks.
pub open spec fn relay_encrypted_len(n: int) -> int {
    (relay_total_len(n) + 15) / 16 * 16
}

/// The plaintext relay frame of an APDU: the header, then the APDU with the
/// bytes of each 16-bit word exchanged (an odd last byte is paired with a
/// zero), zero padded to `len` bytes.
pub open spec fn relay_frame_spec(apdu: Seq<u8>, len: int) -> Seq<u8> {
    Seq::new(len as nat, |i: int|
        if i < 4 {
            relay_header()[i]
        } else if i - 4 < apdu.len() + apdu.len() % 2 {
            if (i - 4) % 2 == 0 {
                if i - 3 < apdu.len() { apdu[i - 3] } else { 0u8 }
            } else {
                apdu[i - 5]
            }
        } else {
            0u8
        })
}

/// What `parse_bcas_response` returns for a response of `length` bytes.
pub open spec fn bcas_response_spec(raw: Seq<u8>, key: Seq<u8>, length: int) -> Result<Seq<u8>, Error> {
    if length == 0 || length > 512 || length > raw.len() || length % 16 != 0 {
        Err(Error::InvalidArgument("invalid B-CAS response length"))
    } else if key.len() != 16 {
        Err(Error::InvalidArgument("AES-128 CBC requires a 16-byte key and block-aligned input"))
    } else {
        let plain = cbc_decrypt_spec(key, zero_block(), swap_pairs_spec(raw.take(length), length));
        if plain.len() >= 4 && plain.take(4) == relay_header() {
            Ok(plain.skip(4))
        } else {
            Err(Error::ProtocolUnavailable("B-CAS response header validation failed"))
        }
    }
}

/// An opened relay response is as long as the bytes read, less the header.
pub proof fn lemma_bcas_response_len(raw: Seq<u8>, key: Seq<u8>, length: int)
    requires
        0 <= length,
        bcas_response_spec(raw, key, length) is Ok,
    ensures
        bcas_response_spec(raw, key, length)->Ok_0.len() == length - 4,
{
    if length == 0 || length > 512 || length > raw.len() || length % 16 != 0 {
        assert(bcas_response_spec(raw, key, length) is Err);
    }
    let wire = swap_pairs_spec(raw.take(length), length);
    assert(raw.take(length).len() == length);
    assert(wire.len() == length);
    lemma_cbc_decrypt_blocks(key, zero_block(), wire);
    assert(cbc_decrypt_spec(key, zero_block(), wire).len() == length);
}

/// Swapping the 16-bit words of the first `n` bytes twice (`n` even and
/// within the data) gives the data back: `swap_words` undoes itself.
pub proof fn lemma_swap_pairs_involution(data: Seq<u8>, n: int)
    requires
        0 <= n <= data.len(),
        n % 2 == 0,
    ensures
        swap_pairs_spec(swap_pairs_spec(data, n), n) == data,
{
    assert(swap_pairs_spec(swap_pairs_spec(data, n), n) =~= data);
}

/// Reversing the bytes of every 32-bit word twice gives the data back:
/// `swap_dwords` undoes itself.
pub proof fn lemma_swap_dwords_involution(data: Seq<u8>)
    requires
        data.len() % 4 == 0,
    ensures
        swap_dwords_spec(swap_dwords_spec(data)) == data,
{
    assert forall|i: int| 0 <= i < data.len() implies #[trigger] swap_dwords_spec(swap_dwords_spec(data))[i] == data[i] by {
        let j = i - i % 4 + (3 - i % 4);
        assert(j % 4 == 3 - i % 4);
        assert(j - j % 4 + (3 - j % 4) == i);
    }
    assert(swap_dwords_spec(swap_dwords_spec(data)) =~= data);
}

/// Frames an APDU for the encrypted B-CAS relay: the plaintext frame is
/// AES-128-CBC encrypted under `key` and word-swapped.  Returns the wire
/// bytes and the frame length the relay command announces.  The wire bytes
/// parse back, through `parse_bcas_response`, to the frame without its header.
pub fn build_bcas_apdu(apdu: &[u8], key: &[u8]) -> (r: Result<(Vec<u8>, u16), Error>)
    ensures
        (apdu@.len() == 0 || apdu@.len() > 0x10c) ==> r == Err::<(Vec<u8>, u16), Error>(
            Error::InvalidArgument("B-CAS APDU length out of range"),
        ),
        (1 <= apdu@.len() <= 0x10c && key@.len() != 16) ==> r == Err::<(Vec<u8>, u16), Error>(
            Error::InvalidArgument("AES-128 CBC requires a 16-byte key and block-aligned input"),
        ),
        (1 <= apdu@.len() <= 0x10c && key@.len() == 16) ==> (r matches Ok((wire, total)) && {
            let elen = relay_encrypted_len(apdu@.len() as int);
            let frame = relay_frame_spec(apdu@, elen);
            &&& total == relay_total_len(apdu@.len() as int)
            &&& wire@.len() == elen
            &&& wire@ == swap_pairs_spec(cbc_encrypt_spec(key@, zero_block(), frame), elen)
            &&& bcas_response_spec(wire@, key@, wire@.len() as int) == Ok::<Seq<u8>, Error>(frame.skip(4))
        }),
{
    if apdu.len() == 0 || apdu.len() > 0x10c {
        return Err(Error::InvalidArgument("B-CAS APDU length out of range"));
    }
    let n = apdu.len();
    let a: usize = n + 4 + 1;
    let total = a & !1usize;
    assert(total == a / 2 * 2) by (bit_vector)
        requires
            a <= 0x200,
            total == a & !1usize,
    ;
    let b: usize = total + 15;
    let encrypted_len = b & !15usize;
    assert(encrypted_len == b / 16 * 16) by (bit_vector)
        requires
            b <= 0x400,
            encrypted_len == b & !15usize,
    ;
    if encrypted_len > 0x110 {
        return Err(Error::InvalidArgument("B-CAS APDU exceeds relay buffer"));
    }
    let ghost frame = relay_frame_spec(apdu@, encrypted_len as int);
    let mut plain: Vec<u8> = Vec::new();
    let mut k: usize = 0;
    while k < encrypted_len
        invariant
            k <= encrypted_len,
            plain@.len() == k,
            forall|j: int| 0 <= j < k ==> plain@[j] == 0u8,
        decreases encrypted_len - k,
    {
        plain.push(0u8);
        k = k + 1;
    }
    plain.set(0, 0xff);
    plain.set(1, 0);
    plain.set(2, 0xff);
    plain.set(3, 0);
    let mut i: usize = 0;
    while i < n
        invariant
            n == apdu@.len(),
            1 <= n <= 0x10c,
            total == (n + 5) / 2 * 2,
            encrypted_len == (total + 15) / 16 * 16,
            plain@.len() == encrypted_len,
            frame == relay_frame_spec(apdu@, encrypted_len as int),
            total <= encrypted_len,
            i % 2 == 0,
            i <= n + 1,
            forall|j: int| 0 <= j < 4 + i ==> plain@[j] == frame[j],
            forall|j: int| 4 + i <= j < encrypted_len ==> plain@[j] == 0u8,
        decreases n + 1 - i,
    {
        let lo = if i + 1 < n { apdu[i + 1] } else { 0u8 };
        plain.set(4 + i, lo);
        plain.set(5 + i, apdu[i]);
        assert(frame[4 + i] == lo);
        assert(frame[5 + i] == apdu@[i as int]);
        i = i + 2;
    }
    assert(plain@ =~= frame);
    let encrypted = match aes_cbc(key, &plain, false) {
        Ok(e) => e,
        Err(e) => {
            return Err(e);
        },
    };
    let mut wire = encrypted;
    let ghost cipher = wire@;
    let swapped = swap_words(wire.as_mut_slice(), encrypted_len);
    assert(swapped is Ok);
    proof {
        lemma_swap_pairs_involution(cipher, encrypted_len as int);
        assert(wire@.take(encrypted_len as int) =~= wire@);
        assert(frame.take(4) =~= relay_header());
    }
    Ok((wire, total as u16))
}

/// Opens a relay response: the first `length` bytes of `raw` are
/// word-swapped, AES-128-CBC decrypted under `key`, and must start with the
/// relay header, which is stripped.
pub fn parse_bcas_response(raw: &[u8], key: &[u8], length: usize) -> (r: Result<Vec<u8>, Error>)
    ensures
        r matches Ok(v) ==> bcas_response_spec(raw@, key@, length as int) == Ok::<Seq<u8>, Error>(v@),
        r matches Ok(v) ==> v@.len() == length - 4,
        r matches Err(e) ==> bcas_response_spec(raw@, key@, length as int) == Err::<Seq<u8>, Error>(e),
{
    if length == 0 || length > 512 || length > raw.len() || length % 16 != 0 {
        return Err(Error::InvalidArgument("invalid B-CAS response length"));
    }
    let mut wire = slice_to_vec(&raw[0..length]);
    let swapped = swap_words(wire.as_mut_slice(), length);
    assert(swapped is Ok);
    let plain = match aes_cbc(key, &wire, true) {
        Ok(p) => p,
        Err(e) => {
            return Err(e);
        },
    };
    if plain.len() >= 4 && plain[0] == 0xff && plain[1] == 0 && plain[2] == 0xff && plain[3] == 0 {
        assert(plain@.take(4) =~= relay_header());
        let body = slice_to_vec(&plain.as_slice()[4..plain.len()]);
        assert(body@ =~= plain@.skip(4));
        Ok(body)
    } else {
        assert(plain@.len() >= 4 ==> plain@.take(4)[0] == plain@[0] && plain@.take(4)[1] == plain@[1]
            && plain@.take(4)[2] == plain@[2] && plain@.take(4)[3] == plain@[3]);
        Err(Error::ProtocolUnavailable("B-CAS response header validation failed"))
    }
}

} // verus!
