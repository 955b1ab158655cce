use crate::error::CryptoError;
use crate::xor::byte_slice_xor;
use aes::cipher::generic_array::GenericArray;
use aes::cipher::{BlockDecrypt, BlockEncrypt, KeyInit};
use vstd::prelude::*;

verus! {

/// The cipher block size in bytes; keys are this long too.
pub const BLOCK_SIZE: usize = 16;

/// AES-128 applied to one 16-byte block under a 16-byte key.
pub uninterp spec fn aes128_encrypt_block(key: Seq<u8>, block: Seq<u8>) -> Seq<u8>;

/// AES-128 inverse cipher applied to one 16-byte block under a 16-byte key.
pub uninterp spec fn aes128_decrypt_block(key: Seq<u8>, block: Seq<u8>) -> Seq<u8>;

/// Relies on aes::Aes128 (`KeyInit::new`, `BlockEncrypt::encrypt_block`): one
/// 16-byte block encrypted under a 16-byte key, a function of the two alone.
#[verifier::external_body]
fn encrypt_block(key: &[u8], block: &[u8]) -> (r: Vec<u8>)
    requires
        key@.len() == 16,
        block@.len() == 16,
    ensures
        r@ == aes128_encrypt_block(key@, block@),
        r@.len() == 16,
{
    let cipher = aes::Aes128::new(GenericArray::from_slice(key));
    let mut b = GenericArray::clone_from_slice(block);
    cipher.encrypt_block(&mut b);
    b.to_vec()
}

/// Relies on aes::Aes128 (`KeyInit::new`, `BlockDecrypt::decrypt_block`): the
/// inverse cipher, which undoes `encrypt_block` under the same key; every
/// AES-128 output block, like this one, is 16 bytes long.
#[verifier::external_body]
fn decrypt_block(key: &[u8], block: &[u8]) -> (r: Vec<u8>)
    requires
        key@.len() == 16,
        block@.len() == 16,
    ensures
        r@ == aes128_decrypt_block(key@, block@),
        r@.len() == 16,
        forall|p: Seq<u8>| p.len() == 16 ==> (aes128_encrypt_block(key@, p) == block@ ==> r@ == p)
            && r@.len() == (#[trigger] aes128_encrypt_block(key@, p)).len(),
{
    let cipher = aes::Aes128::new(GenericArray::from_slice(key));
    let mut b = GenericArray::clone_from_slice(block);
    cipher.decrypt_block(&mut b);
    b.to_vec()
}

/// The `j`-th 16-byte block of `data`.
pub open spec fn block_of(data: Seq<u8>, j: int) -> Seq<u8> {
    data.subrange(16 * j, 16 * j + 16)
}

/// PKCS#7 padding to a multiple of 16: between 1 and 16 bytes, each equal to their count.
pub open spec fn pkcs7_pad_spec(data: Seq<u8>) -> Seq<u8> {
    let n = 16 - data.len() % 16;
    data + Seq::new(n as nat, |i: int| n as u8)
}

/// PKCS#7 padding removed: `None` unless the length is a non-zero multiple of
/// 16 and the last byte `n` is in `1..=16` with the last `n` bytes all equal to `n`.
pub open spec fn pkcs7_unpad_spec(data: Seq<u8>) -> Option<Seq<u8>> {
    if data.len() == 0 || data.len() % 16 != 0 {
        None
    } else {
        let n = data.last() as int;
        if 1 <= n <= 16 && forall|i: int| data.len() - n <= i < data.len() ==> #[trigger] data[i] == n as u8 {
            Some(data.take(data.len() - n))
        } else {
            None
        }
    }
}

/// ECB encryption: each 16-byte block encrypted on its own.
pub open spec fn ecb_encrypt_spec(key: Seq<u8>, data: Seq<u8>) -> Seq<u8> {
    Seq::new(data.len(), |i: int| aes128_encrypt_block(key, block_of(data, i / 16))[i % 16])
}

/// ECB decryption: each 16-byte block decrypted on its own.
pub open spec fn ecb_decrypt_spec(key: Seq<u8>, data: Seq<u8>) -> Seq<u8> {
    Seq::new(data.len(), |i: int| aes128_decrypt_block(key, block_of(data, i / 16))[i % 16])
}

/// The `j`-th CBC ciphertext block: block `j` of `data` XOR-ed with the
/// previous ciphertext block (the IV for the first), then encrypted.
pub open spec fn cbc_block(key: Seq<u8>, iv: Seq<u8>, data: Seq<u8>, j: nat) -> Seq<u8>
    decreases j,
{
    let chain = if j == 0 { iv } else { cbc_block(key, iv, data, (j - 1) as nat) };
    aes128_encrypt_block(key, crate::xor::xor_seq(block_of(data, j as int), chain))
}

/// CBC encryption of whole blocks.
pub open spec fn cbc_encrypt_spec(key: Seq<u8>, iv: Seq<u8>, data: Seq<u8>) -> Seq<u8> {
    Seq::new(data.len(), |i: int| cbc_block(key, iv, data, (i / 16) as nat)[i % 16])
}

/// CBC decryption of whole blocks: each block decrypted, then XOR-ed with the
/// previous ciphertext block (the IV for the first).
pub open spec fn cbc_decrypt_spec(key: Seq<u8>, iv: Seq<u8>, data: Seq<u8>) -> Seq<u8> {
    Seq::new(data.len(), |i: int|
        crate::xor::xor_seq(
            aes128_decrypt_block(key, block_of(data, i / 16)),
            if i / 16 == 0 { iv } else { block_of(data, i / 16 - 1) },
        )[i % 16])
}

/// Appends `src` to `out`.
fn push_all(out: &mut Vec<u8>, src: &[u8])
    ensures
        final(out)@ == old(out)@ + src@,
{
    let mut i: usize = 0;
    while i < src.len()
        invariant
            i <= src@.len(),
            out@ == old(out)@ + src@.take(i as int),
        decreases src@.len() - i,
    {
        out.push(src[i]);
        i = i + 1;
        assert(out@ =~= old(out)@ + src@.take(i as int));
    }
    assert(src@.take(src@.len() as int) =~= src@);
}

/// Pads `data` with PKCS#7 to a multiple of the block size.
pub fn pkcs7_pad(data: &[u8]) -> (r: Vec<u8>)
    ensures
        r@ == pkcs7_pad_spec(data@),
{
    let n: usize = 16 - data.len() % 16;
    let mut out: Vec<u8> = Vec::new();
    push_all(&mut out, data);
    let mut i: usize = 0;
    while i < n
        invariant
            n == 16 - data@.len() % 16,
            i <= n,
            out@ == data@ + Seq::new(i as nat, |k: int| n as u8),
        decreases n - i,
    {
        out.push(n as u8);
        i = i + 1;
        assert(out@ =~= data@ + Seq::new(i as nat, |k: int| n as u8));
    }
    out
}

/// Removes PKCS#7 padding, failing on padding that is not valid.
pub fn pkcs7_unpad(data: &[u8]) -> (r: Result<Vec<u8>, CryptoError>)
    ensures
        match pkcs7_unpad_spec(data@) {
            Some(p) => r matches Ok(v) && v@ == p,
            None => r == Err::<Vec<u8>, CryptoError>(CryptoError::PaddingError),
        },
{
    let len = data.len();
    if len == 0 || len % 16 != 0 {
        return Err(CryptoError::PaddingError);
    }
    let n = data[len - 1] as usize;
    if n < 1 || n > 16 {
        return Err(CryptoError::PaddingError);
    }
    let mut i: usize = len - n;
    while i < len
        invariant
            len == data@.len(),
            n == data@.last() as int,
            1 <= n <= 16,
            len - n <= i <= len,
            forall|k: int| len - n <= k < i ==> #[trigger] data@[k] == n as u8,
        decreases len - i,
    {
        if data[i] as usize != n {
            return Err(CryptoError::PaddingError);
        }
        i = i + 1;
    }
    let mut out: Vec<u8> = Vec::new();
    push_all(&mut out, &data[0..len - n]);
    assert(data@.subrange(0, len - n) =~= data@.take(len - n));
    Ok(out)
}

/// Removing PKCS#7 padding gives back exactly what was padded.
pub proof fn lemma_pkcs7_unpad_pad(data: Seq<u8>)
    ensures
        pkcs7_unpad_spec(pkcs7_pad_spec(data)) == Some(data),
{
    let p = pkcs7_pad_spec(data);
    let n = 16 - data.len() % 16;
    assert(p.len() == data.len() + n);
    assert(p.len() % 16 == 0);
    assert(p.last() == n as u8);
    assert(p.take(p.len() - n) =~= data);
}

/// Encrypts whole blocks under ECB.
pub fn encrypt_ecb(key: &[u8], data: &[u8]) -> (r: Vec<u8>)
    requires
        key@.len() == 16,
        data@.len() % 16 == 0,
    ensures
        r@ == ecb_encrypt_spec(key@, data@),
{
    let mut out: Vec<u8> = Vec::with_capacity(data.len());
    let mut j: usize = 0;
    while j < data.len()
        invariant
            key@.len() == 16,
            data@.len() % 16 == 0,
            j % 16 == 0,
            j <= data@.len(),
            out@ == ecb_encrypt_spec(key@, data@).take(j as int),
        decreases data@.len() - j,
    {
        let c = encrypt_block(key, &data[j..j + 16]);
        assert(data@.subrange(j as int, j + 16) == block_of(data@, j as int / 16));
        push_all(&mut out, c.as_slice());
        j = j + 16;
        assert(out@ =~= ecb_encrypt_spec(key@, data@).take(j as int));
    }
    assert(out@ =~= ecb_encrypt_spec(key@, data@));
    out
}

/// Decrypts whole blocks under ECB; ECB encryption under the same key is undone.
pub fn decrypt_ecb(key: &[u8], data: &[u8]) -> (r: Vec<u8>)
    requires
        key@.len() == 16,
        data@.len() % 16 == 0,
    ensures
        r@ == ecb_decrypt_spec(key@, data@),
        forall|p: Seq<u8>| p.len() == data@.len() && #[trigger] ecb_encrypt_spec(key@, p) == data@ ==> r@ == p,
{
    let mut out: Vec<u8> = Vec::with_capacity(data.len());
    let mut j: usize = 0;
    while j < data.len()
        invariant
            key@.len() == 16,
            data@.len() % 16 == 0,
            j % 16 == 0,
            j <= data@.len(),
            out@ == ecb_decrypt_spec(key@, data@).take(j as int),
            forall|p: Seq<u8>| p.len() == data@.len() && #[trigger] ecb_encrypt_spec(key@, p) == data@ ==> out@ == p.take(j as int),
        decreases data@.len() - j,
    {
        let d = decrypt_block(key, &data[j..j + 16]);
        assert(data@.subrange(j as int, j + 16) == block_of(data@, j as int / 16));
        push_all(&mut out, d.as_slice());
        j = j + 16;
        assert(out@ =~= ecb_decrypt_spec(key@, data@).take(j as int));
        assert forall|p: Seq<u8>| p.len() == data@.len() && #[trigger] ecb_encrypt_spec(key@, p) == data@ implies out@ == p.take(j as int) by {
            let jb = (j - 16) / 16;
            let pb = block_of(p, jb);
            assert forall|k: int| 0 <= k < 16 implies aes128_encrypt_block(key@, pb)[k] == data@[j - 16 + k] by {
                assert(ecb_encrypt_spec(key@, p)[j - 16 + k] == aes128_encrypt_block(key@, block_of(p, (j - 16 + k) / 16))[(j - 16 + k) % 16]);
                assert((j - 16 + k) / 16 == jb);
            }
            assert(aes128_encrypt_block(key@, pb) =~= data@.subrange(j - 16, j as int));
            assert(pb.len() == 16);
            assert(d@ == pb);
            assert(out@ =~= p.take(j as int));
        }
    }
    assert(out@ =~= ecb_decrypt_spec(key@, data@));
    assert forall|p: Seq<u8>| p.len() == data@.len() && #[trigger] ecb_encrypt_spec(key@, p) == data@ implies out@ == p by {
        assert(p.take(j as int) =~= p);
    }
    out
}

/// Pads `plain_text` with PKCS#7 and encrypts it under ECB.
pub fn encrypt_ecb_text(plain_text: &[u8], key: &[u8]) -> (r: Vec<u8>)
    requires
        key@.len() == 16,
    ensures
        r@ == ecb_encrypt_spec(key@, pkcs7_pad_spec(plain_text@)),
        r@.len() % 16 == 0,
{
    let padded = pkcs7_pad(plain_text);
    encrypt_ecb(key, padded.as_slice())
}

/// Decrypts under ECB and removes the PKCS#7 padding. A length that is not a
/// multiple of the block size is a decode error; bad padding is a padding error.
pub fn decrypt_ecb_text(cipher_text: &[u8], key: &[u8]) -> (r: Result<Vec<u8>, CryptoError>)
    requires
        key@.len() == 16,
    ensures
        cipher_text@.len() % 16 != 0 ==> r == Err::<Vec<u8>, CryptoError>(CryptoError::DecodeError),
        cipher_text@.len() % 16 == 0 ==> match pkcs7_unpad_spec(ecb_decrypt_spec(key@, cipher_text@)) {
            Some(p) => r matches Ok(v) && v@ == p,
            None => r == Err::<Vec<u8>, CryptoError>(CryptoError::PaddingError),
        },
        forall|p: Seq<u8>| #[trigger] ecb_encrypt_spec(key@, pkcs7_pad_spec(p)) == cipher_text@
            ==> (r matches Ok(v) && v@ == p),
{
    if cipher_text.len() % 16 != 0 {
        proof {
            assert forall|p: Seq<u8>| #[trigger] ecb_encrypt_spec(key@, pkcs7_pad_spec(p)) == cipher_text@
                implies false by {
                assert(pkcs7_pad_spec(p).len() % 16 == 0);
            }
        }
        return Err(CryptoError::DecodeError);
    }
    let padded = decrypt_ecb(key, cipher_text);
    let r = pkcs7_unpad(padded.as_slice());
    proof {
        assert forall|p: Seq<u8>| #[trigger] ecb_encrypt_spec(key@, pkcs7_pad_spec(p)) == cipher_text@
            implies (r matches Ok(v) && v@ == p) by {
            let q = pkcs7_pad_spec(p);
            assert(q.len() == cipher_text@.len());
            assert(ecb_encrypt_spec(key@, q) == cipher_text@);
            assert(padded@ == q);
            lemma_pkcs7_unpad_pad(p);
        }
    }
    r
}

/// XOR of two 16-byte blocks.
fn xor_block(a: &[u8], b: &[u8]) -> (r: Vec<u8>)
    requires
        a@.len() == 16,
        b@.len() == 16,
    ensures
        r@ == crate::xor::xor_seq(a@, b@),
{
    match byte_slice_xor(a, b) {
        Ok(v) => v,
        Err(_) => {
            assert(false);
            Vec::new()
        },
    }
}

/// Encrypts whole blocks under CBC with the given IV.
pub fn encrypt_cbc(data: &[u8], key: &[u8], iv: &[u8]) -> (r: Vec<u8>)
    requires
        key@.len() == 16,
        iv@.len() == 16,
        data@.len() % 16 == 0,
    ensures
        r@ == cbc_encrypt_spec(key@, iv@, data@),
{
    let mut out: Vec<u8> = Vec::with_capacity(data.len());
    let mut prev: Vec<u8> = Vec::new();
    push_all(&mut prev, iv);
    let mut j: usize = 0;
    while j < data.len()
        invariant
            key@.len() == 16,
            iv@.len() == 16,
            data@.len() % 16 == 0,
            j % 16 == 0,
            j <= data@.len(),
            prev@.len() == 16,
            prev@ == if j == 0 { iv@ } else { cbc_block(key@, iv@, data@, (j / 16 - 1) as nat) },
            out@ == cbc_encrypt_spec(key@, iv@, data@).take(j as int),
        decreases data@.len() - j,
    {
        let chunk = &data[j..j + 16];
        assert(chunk@ == block_of(data@, j as int / 16));
        let mixed = xor_block(chunk, prev.as_slice());
        let c = encrypt_block(key, mixed.as_slice());
        assert(c@ == cbc_block(key@, iv@, data@, (j / 16) as nat));
        push_all(&mut out, c.as_slice());
        prev = c;
        j = j + 16;
        assert(out@ =~= cbc_encrypt_spec(key@, iv@, data@).take(j as int));
    }
    assert(out@ =~= cbc_encrypt_spec(key@, iv@, data@));
    out
}

/// Decrypts whole blocks under CBC; CBC encryption under the same key and IV
/// is undone.
pub fn decrypt_cbc(data: &[u8], key: &[u8], iv: &[u8]) -> (r: Vec<u8>)
    requires
        key@.len() == 16,
        iv@.len() == 16,
        data@.len() % 16 == 0,
    ensures
        r@ == cbc_decrypt_spec(key@, iv@, data@),
        forall|p: Seq<u8>| p.len() == data@.len() && #[trigger] cbc_encrypt_spec(key@, iv@, p) == data@ ==> r@ == p,
{
    let mut out: Vec<u8> = Vec::with_capacity(data.len());
    let mut j: usize = 0;
    while j < data.len()
        invariant
            key@.len() == 16,
            iv@.len() == 16,
            data@.len() % 16 == 0,
            j % 16 == 0,
            j <= data@.len(),
            out@ == cbc_decrypt_spec(key@, iv@, data@).take(j as int),
            forall|p: Seq<u8>| p.len() == data@.len() && #[trigger] cbc_encrypt_spec(key@, iv@, p) == data@ ==> out@ == p.take(j as int),
        decreases data@.len() - j,
    {
        let chunk = &data[j..j + 16];
        let jb = j / 16;
        assert(chunk@ == block_of(data@, jb as int));
        let prev = if j == 0 { iv } else { &data[j - 16..j] };
        assert(prev@ == if jb == 0 { iv@ } else { block_of(data@, jb - 1) });
        let d = decrypt_block(key, chunk);
        let plain = xor_block(d.as_slice(), prev);
        push_all(&mut out, plain.as_slice());
        j = j + 16;
        assert(out@ =~= cbc_decrypt_spec(key@, iv@, data@).take(j as int));
        assert forall|p: Seq<u8>| p.len() == data@.len() && #[trigger] cbc_encrypt_spec(key@, iv@, p) == data@
            implies out@ == p.take(j as int) by {
            let pb = block_of(p, jb as int);
            let chain = if jb == 0 { iv@ } else { cbc_block(key@, iv@, p, (jb - 1) as nat) };
            if jb > 0 {
                let cprev = cbc_block(key@, iv@, p, (jb - 1) as nat);
                let xprev = crate::xor::xor_seq(block_of(p, jb - 1), if jb - 1 == 0 { iv@ } else { cbc_block(key@, iv@, p, (jb - 2) as nat) });
                assert(cprev == aes128_encrypt_block(key@, xprev));
                assert(xprev.len() == 16);
                assert forall|k: int| 0 <= k < 16 implies cprev[k] == data@[16 * (jb - 1) + k] by {
                    assert(cbc_encrypt_spec(key@, iv@, p)[16 * (jb - 1) + k] == cbc_block(key@, iv@, p, ((16 * (jb - 1) + k) / 16) as nat)[(16 * (jb - 1) + k) % 16]);
                    assert((16 * (jb - 1) + k) / 16 == jb - 1);
                }
                assert(cprev =~= block_of(data@, jb - 1));
            }
            assert(chain == prev@);
            let x = crate::xor::xor_seq(pb, chain);
            assert(x.len() == 16);
            let cb = cbc_block(key@, iv@, p, jb as nat);
            assert(cb == aes128_encrypt_block(key@, x));
            assert forall|k: int| 0 <= k < 16 implies cb[k] == data@[16 * jb + k] by {
                assert(cbc_encrypt_spec(key@, iv@, p)[16 * jb + k] == cbc_block(key@, iv@, p, ((16 * jb + k) / 16) as nat)[(16 * jb + k) % 16]);
                assert((16 * jb + k) / 16 == jb);
            }
            assert(cb =~= chunk@);
            assert(d@ == x);
            crate::xor::lemma_byte_xor_self_inverse(pb, chain);
            assert(plain@ == pb);
            assert(out@ =~= p.take(j as int));
        }
    }
    assert(out@ =~= cbc_decrypt_spec(key@, iv@, data@));
    assert forall|p: Seq<u8>| p.len() == data@.len() && #[trigger] cbc_encrypt_spec(key@, iv@, p) == data@ implies out@ == p by {
        assert(p.take(j as int) =~= p);
    }
    out
}

/// Decrypts under CBC and removes the PKCS#7 padding. A length that is not a
/// multiple of the block size is a decode error; bad padding is a padding error.
pub fn decrypt_cbc_text(cipher_text: &[u8], key: &[u8], iv: &[u8]) -> (r: Result<Vec<u8>, CryptoError>)
    requires
        key@.len() == 16,
        iv@.len() == 16,
    ensures
        cipher_text@.len() % 16 != 0 ==> r == Err::<Vec<u8>, CryptoError>(CryptoError::DecodeError),
        cipher_text@.len() % 16 == 0 ==> match pkcs7_unpad_spec(cbc_decrypt_spec(key@, iv@, cipher_text@)) {
            Some(p) => r matches Ok(v) && v@ == p,
            None => r == Err::<Vec<u8>, CryptoError>(CryptoError::PaddingError),
        },
        forall|p: Seq<u8>| #[trigger] cbc_encrypt_spec(key@, iv@, pkcs7_pad_spec(p)) == cipher_text@
            ==> (r matches Ok(v) && v@ == p),
{
    if cipher_text.len() % 16 != 0 {
        proof {
            assert forall|p: Seq<u8>| #[trigger] cbc_encrypt_spec(key@, iv@, pkcs7_pad_spec(p)) == cipher_text@
                implies false by {
                assert(pkcs7_pad_spec(p).len() % 16 == 0);
            }
        }
        return Err(CryptoError::DecodeError);
    }
    let padded = decrypt_cbc(cipher_text, key, iv);
    let r = pkcs7_unpad(padded.as_slice());
    proof {
        assert forall|p: Seq<u8>| #[trigger] cbc_encrypt_spec(key@, iv@, pkcs7_pad_spec(p)) == cipher_text@
            implies (r matches Ok(v) && v@ == p) by {
            let q = pkcs7_pad_spec(p);
            assert(q.len() == cipher_text@.len());
            assert(padded@ == q);
            lemma_pkcs7_unpad_pad(p);
        }
    }
    r
}

/// Pads `plain_text` with PKCS#7 and encrypts it under CBC with the given IV.
pub fn encrypt_cbc_text(plain_text: &[u8], key: &[u8], iv: &[u8]) -> (r: Vec<u8>)
    requires
        key@.len() == 16,
        iv@.len() == 16,
    ensures
        r@ == cbc_encrypt_spec(key@, iv@, pkcs7_pad_spec(plain_text@)),
        r@.len() % 16 == 0,
{
    let padded = pkcs7_pad(plain_text);
    encrypt_cbc(padded.as_slice(), key, iv)
}

/// Relies on rand::random: one byte from the thread-local generator. Nothing is
/// known of its value.
#[verifier::external_body]
pub(crate) fn random_byte() -> (r: u8) {
    rand::random::<u8>()
}

/// A fresh random key of the block size.
pub fn generate_random_aes_key() -> (r: Vec<u8>)
    ensures
        r@.len() == BLOCK_SIZE,
{
    random_bytes(BLOCK_SIZE)
}

/// `n` random bytes.
pub fn random_bytes(n: usize) -> (r: Vec<u8>)
    ensures
        r@.len() == n,
{
    let mut out: Vec<u8> = Vec::with_capacity(n);
    let mut i: usize = 0;
    while i < n
        invariant
            i <= n,
            out@.len() == i,
        decreases n - i,
    {
        out.push(random_byte());
        i = i + 1;
    }
    out
}

} // verus!
