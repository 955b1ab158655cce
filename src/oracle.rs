use crate::block::{
    cbc_encrypt_spec, ecb_encrypt_spec, encrypt_cbc_text, encrypt_ecb_text, pkcs7_pad_spec,
    random_bytes, BLOCK_SIZE,
};
use crate::error::CryptoError;
use rand::Rng;
use rustc_serialize::base64::FromBase64;
use vstd::prelude::*;
use vstd::string::StringSliceAdditionalSpecFns;

verus! {

/// The block-cipher mode of an encryption.
#[derive(Debug, Clone, Copy, PartialEq, Eq, Structural)]
pub enum Mode {
    /// Nothing has been encrypted yet.
    Unset,
    Ecb,
    Cbc,
}

/// The bytes that base64 text decodes to, or `None` when it is malformed.
pub uninterp spec fn base64_decoded(text: Seq<u8>) -> Option<Seq<u8>>;

/// Relies on rustc_serialize's `FromBase64::from_base64` for `str`: a
/// deterministic decoding of the text's bytes, or an error on malformed input.
#[verifier::external_body]
fn decode_base64(text: &str) -> (r: Option<Vec<u8>>)
    ensures
        match r {
            Some(v) => base64_decoded(text.spec_bytes()) == Some(v@),
            None => base64_decoded(text.spec_bytes()) is None,
        },
{
    text.from_base64().ok()
}

/// Relies on rand's `Rng::gen_range` on the thread-local generator: a value in
/// `low..high`, which must not be empty.
#[verifier::external_body]
fn random_in_range(low: usize, high: usize) -> (r: usize)
    requires
        low < high,
    ensures
        low <= r < high,
{
    rand::thread_rng().gen_range(low..high)
}

/// Relies on rand::random: a fair coin. Nothing is known of its value.
#[verifier::external_body]
fn random_bool() -> (r: bool) {
    rand::random::<bool>()
}

/// The all-zero IV used for CBC.
pub open spec fn zero_iv() -> Seq<u8> {
    Seq::new(16, |i: int| 0u8)
}

/// The ciphertext of `prefix + plain_text + suffix`, padded and encrypted under
/// `key` in CBC (zero IV) or in ECB.
pub open spec fn mangled_ciphertext(
    plain_text: Seq<u8>,
    prefix: Seq<u8>,
    suffix: Seq<u8>,
    use_cbc: bool,
    key: Seq<u8>,
) -> Seq<u8> {
    let padded = pkcs7_pad_spec(prefix + plain_text + suffix);
    if use_cbc {
        cbc_encrypt_spec(key, zero_iv(), padded)
    } else {
        ecb_encrypt_spec(key, padded)
    }
}

/// The ciphertext that the append-secret oracle gives for `plain_text` under
/// its pinned key and configured suffix.
pub open spec fn appended_ciphertext(o: Oracle, plain_text: Seq<u8>) -> Seq<u8> {
    ecb_encrypt_spec(o.last_key->0@, pkcs7_pad_spec(plain_text + o.append_str->0@))
}

/// One call of the append-secret oracle from state `before` to state `after`:
/// the key is pinned on the first call and kept afterwards.
pub open spec fn append_step(before: Oracle, after: Oracle) -> bool {
    &&& after.append_str == before.append_str
    &&& after.block_size == before.block_size
    &&& after.last_mode == Mode::Ecb
    &&& after.last_key is Some
    &&& after.last_key->0@.len() == 16
    &&& before.last_key is Some ==> after.last_key == before.last_key
}

/// Encrypts `prefix + plain_text + suffix` under `key`, in CBC with a zero IV
/// when `use_cbc` holds and in ECB otherwise.
pub fn encrypt_mangled(plain_text: &[u8], prefix: &[u8], suffix: &[u8], use_cbc: bool, key: &[u8]) -> (r: Vec<u8>)
    requires
        key@.len() == 16,
    ensures
        r@ == mangled_ciphertext(plain_text@, prefix@, suffix@, use_cbc, key@),
        r@.len() % 16 == 0,
{
    let mut text: Vec<u8> = Vec::new();
    let mut i: usize = 0;
    while i < prefix.len()
        invariant
            i <= prefix@.len(),
            text@ == prefix@.take(i as int),
        decreases prefix@.len() - i,
    {
        text.push(prefix[i]);
        i = i + 1;
        assert(text@ =~= prefix@.take(i as int));
    }
    assert(prefix@.take(i as int) =~= prefix@);
    i = 0;
    while i < plain_text.len()
        invariant
            i <= plain_text@.len(),
            text@ == prefix@ + plain_text@.take(i as int),
        decreases plain_text@.len() - i,
    {
        text.push(plain_text[i]);
        i = i + 1;
        assert(text@ =~= prefix@ + plain_text@.take(i as int));
    }
    assert(plain_text@.take(i as int) =~= plain_text@);
    i = 0;
    while i < suffix.len()
        invariant
            i <= suffix@.len(),
            text@ == prefix@ + plain_text@ + suffix@.take(i as int),
        decreases suffix@.len() - i,
    {
        text.push(suffix[i]);
        i = i + 1;
        assert(text@ =~= prefix@ + plain_text@ + suffix@.take(i as int));
    }
    assert(suffix@.take(i as int) =~= suffix@);
    if use_cbc {
        let iv: Vec<u8> = vec![0u8; 16];
        assert(iv@ =~= zero_iv());
        encrypt_cbc_text(text.as_slice(), key, iv.as_slice())
    } else {
        encrypt_ecb_text(text.as_slice(), key)
    }
}

/// A black-box encryption service with two key policies: a fresh key for every
/// mode-detection query, and one key pinned for all append-secret queries.
pub struct Oracle {
    /// The decoded secret suffix of the append-secret oracle, once configured.
    pub append_str: Option<Vec<u8>>,
    pub block_size: usize,
    /// The key of the append-secret oracle, pinned on its first call.
    pub last_key: Option<Vec<u8>>,
    /// The mode of the most recent encryption.
    pub last_mode: Mode,
}

impl Oracle {
    /// The configured secret suffix, if any.
    pub open spec fn suffix(&self) -> Option<Seq<u8>> {
        match self.append_str {
            Some(v) => Some(v@),
            None => None,
        }
    }

    pub open spec fn well_formed(&self) -> bool {
        &&& self.block_size == BLOCK_SIZE
        &&& self.last_key matches Some(k) ==> k@.len() == 16
    }

    /// An oracle without a suffix and without a key.
    pub fn new() -> (r: Self)
        ensures
            r.well_formed(),
            r.append_str is None,
            r.last_key is None,
            r.last_mode == Mode::Unset,
    {
        Oracle { append_str: None, block_size: BLOCK_SIZE, last_key: None, last_mode: Mode::Unset }
    }

    /// An oracle whose secret suffix is the base64 text `append_str`, decoded
    /// here once; malformed base64 is a decode error.
    pub fn new_with_append_str(append_str: &str) -> (r: Result<Self, CryptoError>)
        ensures
            match base64_decoded(append_str.spec_bytes()) {
                Some(s) => r matches Ok(o) && o.well_formed() && o.suffix() == Some(s)
                    && o.last_key is None && o.last_mode == Mode::Unset,
                None => r matches Err(e) && e == CryptoError::DecodeError,
            },
    {
        match decode_base64(append_str) {
            Some(v) => Ok(Oracle { append_str: Some(v), block_size: BLOCK_SIZE, last_key: None, last_mode: Mode::Unset }),
            None => Err(CryptoError::DecodeError),
        }
    }

    /// A fresh random key of the block size.
    pub fn generate_random_aes_key(&mut self) -> (r: Vec<u8>)
        requires
            old(self).well_formed(),
        ensures
            *final(self) == *old(self),
            r@.len() == final(self).block_size,
    {
        random_bytes(self.block_size)
    }

    /// Sandwiches `plain_text` between 5 to 10 random bytes on each side, pads
    /// it, and encrypts it under a fresh key, in CBC (zero IV) or ECB by a coin
    /// flip. The key is not kept; the mode is recorded.
    pub fn randomly_mangled_encrypted_text(&mut self, plain_text: &[u8]) -> (r: Vec<u8>)
        requires
            old(self).well_formed(),
        ensures
            final(self).well_formed(),
            final(self).append_str == old(self).append_str,
            final(self).last_key == old(self).last_key,
            final(self).block_size == old(self).block_size,
            r@.len() % 16 == 0,
            exists|prefix: Seq<u8>, suffix: Seq<u8>, use_cbc: bool, key: Seq<u8>|
                5 <= prefix.len() <= 10 && 5 <= suffix.len() <= 10 && key.len() == 16
                && r@ == #[trigger] mangled_ciphertext(plain_text@, prefix, suffix, use_cbc, key)
                && final(self).last_mode == (if use_cbc { Mode::Cbc } else { Mode::Ecb }),
    {
        let prefix_size = random_in_range(5, 11);
        let suffix_size = random_in_range(5, 11);
        let prefix = random_bytes(prefix_size);
        let suffix = random_bytes(suffix_size);
        let use_cbc = random_bool();
        let key = self.generate_random_aes_key();
        let r = encrypt_mangled(plain_text, prefix.as_slice(), suffix.as_slice(), use_cbc, key.as_slice());
        self.last_mode = if use_cbc { Mode::Cbc } else { Mode::Ecb };
        assert(r@ == mangled_ciphertext(plain_text@, prefix@, suffix@, use_cbc, key@));
        r
    }

    /// Encrypts `plain_text` followed by the configured suffix under ECB with
    /// the oracle's key, which is drawn on the first call and reused after.
    pub fn randomly_append_and_encrypt_text(&mut self, plain_text: &[u8]) -> (r: Result<Vec<u8>, CryptoError>)
        requires
            old(self).well_formed(),
        ensures
            final(self).well_formed(),
            old(self).append_str is None ==> r == Err::<Vec<u8>, CryptoError>(CryptoError::MissingConfiguration)
                && *final(self) == *old(self),
            old(self).append_str is Some ==> append_step(*old(self), *final(self))
                && (r matches Ok(c) && c@ == appended_ciphertext(*final(self), plain_text@)),
    {
        let mut text: Vec<u8> = Vec::new();
        match &self.append_str {
            None => return Err(CryptoError::MissingConfiguration),
            Some(suffix) => {
                let mut i: usize = 0;
                while i < plain_text.len()
                    invariant
                        i <= plain_text@.len(),
                        text@ == plain_text@.take(i as int),
                    decreases plain_text@.len() - i,
                {
                    text.push(plain_text[i]);
                    i = i + 1;
                    assert(text@ =~= plain_text@.take(i as int));
                }
                assert(plain_text@.take(i as int) =~= plain_text@);
                i = 0;
                while i < suffix.len()
                    invariant
                        i <= suffix@.len(),
                        text@ == plain_text@ + suffix@.take(i as int),
                    decreases suffix@.len() - i,
                {
                    text.push(suffix[i]);
                    i = i + 1;
                    assert(text@ =~= plain_text@ + suffix@.take(i as int));
                }
                assert(suffix@.take(i as int) =~= suffix@);
            },
        }
        self.last_mode = Mode::Ecb;
        match &self.last_key {
            Some(key) => Ok(encrypt_ecb_text(text.as_slice(), key.as_slice())),
            None => {
                let key = self.generate_random_aes_key();
                let encoded = encrypt_ecb_text(text.as_slice(), key.as_slice());
                self.last_key = Some(key);
                Ok(encoded)
            },
        }
    }
}

/// Once the append-secret oracle has answered, its key is pinned: two further
/// calls with the same plaintext give identical ciphertexts.
pub proof fn lemma_pinned_key_repeats(first: Oracle, second: Oracle, third: Oracle, plain_text: Seq<u8>)
    requires
        append_step(first, second),
        append_step(second, third),
    ensures
        appended_ciphertext(second, plain_text) == appended_ciphertext(third, plain_text),
{
}

} // verus!
