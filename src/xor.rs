use crate::error::CryptoError;
use vstd::prelude::*;
use vstd::string::StringSliceAdditionalSpecFns;

verus! {

/// Byte-wise XOR of two sequences of equal length.
pub open spec fn xor_seq(a: Seq<u8>, b: Seq<u8>) -> Seq<u8>
    recommends
        a.len() == b.len(),
{
    Seq::new(a.len(), |i: int| a[i] ^ b[i])
}

/// XOR of `data` with `key` repeated over its whole length; empty for an empty key.
pub open spec fn repeating_xor_seq(data: Seq<u8>, key: Seq<u8>) -> Seq<u8> {
    if key.len() == 0 {
        Seq::empty()
    } else {
        Seq::new(data.len(), |i: int| data[i] ^ key[i % (key.len() as int)])
    }
}

/// The value of an ASCII hex digit, either case.
pub open spec fn hex_digit_value(c: u8) -> Option<u8> {
    if 48u8 <= c <= 57u8 {
        Some((c - 48u8) as u8)
    } else if 97u8 <= c <= 102u8 {
        Some((c - 97u8 + 10) as u8)
    } else if 65u8 <= c <= 70u8 {
        Some((c - 65u8 + 10) as u8)
    } else {
        None
    }
}

/// Hex text decoded into bytes: `None` for an odd length or a non-hex character.
pub open spec fn hex_decode_spec(text: Seq<u8>) -> Option<Seq<u8>> {
    if text.len() % 2 == 0 && forall|i: int| 0 <= i < text.len() ==> (#[trigger] hex_digit_value(text[i])) is Some {
        Some(Seq::new((text.len() / 2) as nat, |i: int|
            (hex_digit_value(text[2 * i])->0 * 16 + hex_digit_value(text[2 * i + 1])->0) as u8))
    } else {
        None
    }
}

/// The lowercase hex digit of a value below 16.
pub open spec fn hex_char(v: u8) -> char {
    if v < 10 {
        (48u8 + v) as char
    } else {
        (97u8 + v - 10) as char
    }
}

/// Bytes encoded as lowercase hex, two characters per byte.
pub open spec fn hex_encode_spec(bytes: Seq<u8>) -> Seq<char> {
    Seq::new(2 * bytes.len(), |i: int|
        if i % 2 == 0 { hex_char(bytes[i / 2] / 16) } else { hex_char(bytes[i / 2] % 16) })
}

/// Relies on hex::decode: odd length and characters outside `[0-9a-fA-F]` are
/// refused, every other pair of digits becomes one byte, high digit first.
#[verifier::external_body]
fn decode_hex(text: &[u8]) -> (r: Option<Vec<u8>>)
    ensures
        match r {
            Some(v) => hex_decode_spec(text@) == Some(v@),
            None => hex_decode_spec(text@) is None,
        },
{
    hex::decode(text).ok()
}

/// Relies on hex::encode: each byte becomes two lowercase hex digits, high first.
#[verifier::external_body]
fn encode_hex(bytes: &[u8]) -> (r: String)
    ensures
        r@ == hex_encode_spec(bytes@),
{
    hex::encode(bytes)
}

/// Decodes two hex strings, XORs the bytes, and encodes the result as hex.
pub fn string_xor(hex_string_1: &str, hex_string_2: &str) -> (r: Result<String, CryptoError>)
    ensures
        match (hex_decode_spec(hex_string_1.spec_bytes()), hex_decode_spec(hex_string_2.spec_bytes())) {
            (Some(a), Some(b)) => if a.len() == b.len() {
                r matches Ok(s) && s@ == hex_encode_spec(xor_seq(a, b))
            } else {
                r == Err::<String, CryptoError>(CryptoError::LengthMismatch)
            },
            _ => r == Err::<String, CryptoError>(CryptoError::DecodeError),
        },
{
    let a = match decode_hex(hex_string_1.as_bytes()) {
        Some(v) => v,
        None => return Err(CryptoError::DecodeError),
    };
    let b = match decode_hex(hex_string_2.as_bytes()) {
        Some(v) => v,
        None => return Err(CryptoError::DecodeError),
    };
    let x = byte_slice_xor(a.as_slice(), b.as_slice())?;
    Ok(encode_hex(x.as_slice()))
}

/// Byte-wise XOR of two slices, which must have the same length.
pub fn byte_slice_xor(byte_vec_1: &[u8], byte_vec_2: &[u8]) -> (r: Result<Vec<u8>, CryptoError>)
    ensures
        byte_vec_1@.len() == byte_vec_2@.len() ==> (r matches Ok(v) && v@ == xor_seq(byte_vec_1@, byte_vec_2@)),
        byte_vec_1@.len() != byte_vec_2@.len() ==> r == Err::<Vec<u8>, CryptoError>(CryptoError::LengthMismatch),
{
    if byte_vec_1.len() != byte_vec_2.len() {
        return Err(CryptoError::LengthMismatch);
    }
    let mut out: Vec<u8> = Vec::with_capacity(byte_vec_1.len());
    let mut i: usize = 0;
    while i < byte_vec_1.len()
        invariant
            byte_vec_1@.len() == byte_vec_2@.len(),
            i <= byte_vec_1@.len(),
            out@ == xor_seq(byte_vec_1@, byte_vec_2@).take(i as int),
        decreases byte_vec_1@.len() - i,
    {
        out.push(byte_vec_1[i] ^ byte_vec_2[i]);
        i = i + 1;
        assert(out@ =~= xor_seq(byte_vec_1@, byte_vec_2@).take(i as int));
    }
    assert(out@ =~= xor_seq(byte_vec_1@, byte_vec_2@));
    Ok(out)
}

/// XOR of `plain_text` with `key` cycled over it; an empty key gives an empty result.
pub fn repeating_key_xor(plain_text: &[u8], key: &[u8]) -> (r: Vec<u8>)
    ensures
        r@ == repeating_xor_seq(plain_text@, key@),
{
    let mut out: Vec<u8> = Vec::new();
    if key.len() == 0 {
        assert(out@ =~= repeating_xor_seq(plain_text@, key@));
        return out;
    }
    let mut i: usize = 0;
    while i < plain_text.len()
        invariant
            key@.len() > 0,
            i <= plain_text@.len(),
            out@ == repeating_xor_seq(plain_text@, key@).take(i as int),
        decreases plain_text@.len() - i,
    {
        out.push(plain_text[i] ^ key[i % key.len()]);
        i = i + 1;
        assert(out@ =~= repeating_xor_seq(plain_text@, key@).take(i as int));
    }
    assert(out@ =~= repeating_xor_seq(plain_text@, key@));
    out
}

/// XOR-ing twice with the same bytes gives back the original bytes.
pub proof fn lemma_byte_xor_self_inverse(a: Seq<u8>, b: Seq<u8>)
    requires
        a.len() == b.len(),
    ensures
        xor_seq(xor_seq(a, b), b) == a,
{
    assert forall|i: int| 0 <= i < a.len() implies #[trigger] xor_seq(xor_seq(a, b), b)[i] == a[i] by {
        let (x, y) = (a[i], b[i]);
        assert((x ^ y) ^ y == x) by (bit_vector);
    }
    assert(xor_seq(xor_seq(a, b), b) =~= a);
}

/// Repeating-key XOR applied twice with the same non-empty key gives back the data.
pub proof fn lemma_repeating_key_xor_self_inverse(data: Seq<u8>, key: Seq<u8>)
    requires
        key.len() > 0,
    ensures
        repeating_xor_seq(repeating_xor_seq(data, key), key) == data,
{
    let once = repeating_xor_seq(data, key);
    assert forall|i: int| 0 <= i < data.len() implies #[trigger] repeating_xor_seq(once, key)[i] == data[i] by {
        let (x, y) = (data[i], key[i % (key.len() as int)]);
        assert((x ^ y) ^ y == x) by (bit_vector);
    }
    assert(repeating_xor_seq(once, key) =~= data);
}

} // verus!
