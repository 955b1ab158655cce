use matasano::block::{
    decrypt_cbc, decrypt_cbc_text, decrypt_ecb, decrypt_ecb_text, encrypt_cbc, encrypt_cbc_text, encrypt_ecb, encrypt_ecb_text,
    generate_random_aes_key, pkcs7_pad, pkcs7_unpad,
};
use matasano::cookie::Cookie;
use matasano::error::CryptoError;
use matasano::oracle::{encrypt_mangled, Mode, Oracle};
use matasano::xor::{byte_slice_xor, repeating_key_xor, string_xor};
use std::collections::HashMap;

fn bytes_of_hex(s: &str) -> Vec<u8> {
    (0..s.len() / 2)
        .map(|i| u8::from_str_radix(&s[2 * i..2 * i + 2], 16).unwrap())
        .collect()
}

const KEY: &str = "YELLOW SUBMARINE";
const APPEND_STR: &str = "Um9sbGluJyBpbiBteSA1LjAKV2l0aCBteSByYWctdG9wIGRvd24gc28gbXkgaGFpciBjYW4gYmxvdwpUaGUgZ2lybGllcyBvbiBzdGFuZGJ5IHdhdmluZyBqdXN0IHRvIHNheSBoaQpEaWQgeW91IHN0b3A/IE5vLCBJIGp1c3QgZHJvdmUgYnkK";
const EXPECTED_STR: &str = "Rollin' in my 5.0\nWith my rag-top down so my hair can blow\nThe girlies on standby waving just to say hi\nDid you stop? No, I just drove by\n";

#[test]
fn hex_strings_xor() {
    let r = string_xor("1c0111001f010100061a024b53535009181c", "686974207468652062756c6c277320657965");
    assert_eq!(r.unwrap(), "746865206b696420646f6e277420706c6179");
}

#[test]
fn hex_strings_xor_accepts_upper_case() {
    assert_eq!(string_xor("FF00", "0f0F").unwrap(), "f00f");
}

#[test]
fn hex_strings_xor_bad_hex_is_decode_error() {
    assert_eq!(string_xor("abc", "abcd"), Err(CryptoError::DecodeError));
    assert_eq!(string_xor("zz", "00"), Err(CryptoError::DecodeError));
}

#[test]
fn hex_strings_xor_unequal_lengths() {
    assert_eq!(string_xor("00ff", "00"), Err(CryptoError::LengthMismatch));
}

#[test]
fn byte_xor_values() {
    assert_eq!(byte_slice_xor(&[0x0f, 0xf0, 0xaa], &[0xff, 0xff, 0x55]).unwrap(), vec![0xf0, 0x0f, 0xff]);
    assert_eq!(byte_slice_xor(&[], &[]).unwrap(), Vec::<u8>::new());
}

#[test]
fn byte_xor_length_mismatch() {
    assert_eq!(byte_slice_xor(&[1, 2], &[1]), Err(CryptoError::LengthMismatch));
}

#[test]
fn byte_xor_twice_is_identity() {
    let a: Vec<u8> = (0..=255).collect();
    let b: Vec<u8> = (0..=255).rev().map(|x: u8| x.wrapping_mul(7)).collect();
    let once = byte_slice_xor(&a, &b).unwrap();
    assert_ne!(once, a);
    assert_eq!(byte_slice_xor(&once, &b).unwrap(), a);
}

#[test]
fn repeating_key_xor_known_vector() {
    let plain = "Burning 'em, if you ain't quick and nimble\nI go crazy when I hear a cymbal";
    let expected = bytes_of_hex("0b3637272a2b2e63622c2e69692a23693a2a3c6324202d623d63343c2a26226324272765272a282b2f20430a652e2c652a3124333a653e2b2027630c692b20283165286326302e27282f");
    assert_eq!(repeating_key_xor(plain.as_bytes(), b"ICE"), expected);
}

#[test]
fn repeating_key_xor_key_longer_than_data() {
    assert_eq!(repeating_key_xor(&[1, 2], &[1, 1, 1, 1]), vec![0, 3]);
    assert_eq!(repeating_key_xor(&[1, 2], &[]), Vec::<u8>::new());
}

#[test]
fn repeating_key_xor_twice_is_identity() {
    let data = b"The quick brown fox jumps over the lazy dog".to_vec();
    let once = repeating_key_xor(&data, b"key");
    assert_ne!(once, data);
    assert_eq!(repeating_key_xor(&once, b"key"), data);
}

#[test]
fn pkcs7_pad_values() {
    assert_eq!(pkcs7_pad(b"YELLOW SUBMARINE").len(), 32);
    assert_eq!(pkcs7_pad(b"YELLOW SUBMARINE")[16..], [16u8; 16]);
    let mut expected = b"YELLOW".to_vec();
    expected.extend_from_slice(&[10u8; 10]);
    assert_eq!(pkcs7_pad(b"YELLOW"), expected);
    assert_eq!(pkcs7_pad(b""), vec![16u8; 16]);
}

#[test]
fn pkcs7_unpad_values() {
    assert_eq!(pkcs7_unpad(&pkcs7_pad(b"YELLOW")).unwrap(), b"YELLOW".to_vec());
    let mut bad = b"YELLOW SUBMARI".to_vec();
    bad.extend_from_slice(&[1, 2]);
    assert_eq!(pkcs7_unpad(&bad), Err(CryptoError::PaddingError));
    assert_eq!(pkcs7_unpad(&[0u8; 16]), Err(CryptoError::PaddingError));
    assert_eq!(pkcs7_unpad(&[1u8; 15]), Err(CryptoError::PaddingError));
    assert_eq!(pkcs7_unpad(&[]), Err(CryptoError::PaddingError));
}

#[test]
fn aes_block_known_answer() {
    let key = bytes_of_hex("000102030405060708090a0b0c0d0e0f");
    let plain = bytes_of_hex("00112233445566778899aabbccddeeff");
    let c = encrypt_ecb(&key, &plain);
    assert_eq!(c, bytes_of_hex("69c4e0d86a7b0430d8cdb78070b4c55a"));
    assert_eq!(decrypt_ecb(&key, &c), plain);
}

#[test]
fn ecb_repeats_equal_blocks() {
    let c = encrypt_ecb_text(&[b'A'; 32], KEY.as_bytes());
    assert_eq!(c.len(), 48);
    assert_eq!(c[0..16], c[16..32]);
    assert_ne!(c[0..16], c[32..48]);
}

#[test]
fn ecb_round_trip_many_lengths() {
    let key = generate_random_aes_key();
    assert_eq!(key.len(), 16);
    for n in 1..1000usize {
        let plain: Vec<u8> = (0..n).map(|i| (i * 31 % 251) as u8).collect();
        let c = encrypt_ecb_text(&plain, &key);
        assert_eq!(c.len() % 16, 0);
        assert_eq!(decrypt_ecb_text(&c, &key).unwrap(), plain);
    }
}

#[test]
fn ecb_decrypt_bad_length_is_decode_error() {
    assert_eq!(decrypt_ecb_text(&[0u8; 15], KEY.as_bytes()), Err(CryptoError::DecodeError));
}

#[test]
fn cbc_chains_blocks() {
    let iv = [0u8; 16];
    let c = encrypt_cbc_text(&[b'A'; 32], KEY.as_bytes(), &iv);
    assert_eq!(c.len(), 48);
    assert_ne!(c[0..16], c[16..32]);
    let ecb = encrypt_ecb_text(&[b'A'; 16], KEY.as_bytes());
    assert_eq!(c[0..16], ecb[0..16]);
}

#[test]
fn profile_for_sanitizes() {
    let cookie = Cookie::new_with_key(KEY);
    assert_eq!(cookie.profile_for("a=b&c"), "email=abc&uid=10&role=user");
}

#[test]
fn profile_for_yellow_submarine() {
    let cookie = Cookie::new_with_key(KEY);
    assert_eq!(cookie.block_size(), 16);
    assert_eq!(cookie.profile_for("foo@bar.com"), "email=foo@bar.com&uid=10&role=user");
    let c = cookie.encrypted_profile_for("foo@bar.com").unwrap();
    assert_eq!(c.len() % 16, 0);
    let p = cookie.decrypted_profile_for(&c).unwrap();
    assert_eq!(p.email, "foo@bar.com");
    assert_eq!(p.uid, 10);
    assert_eq!(p.role, "user");
}

#[test]
fn profile_round_trip_sanitized() {
    let cookie = Cookie::new();
    for email in ["x=y&&z@example.com", "", "ünïcode+%20@x", "role=admin"] {
        let c = cookie.encrypted_profile_for(email).unwrap();
        let p = cookie.decrypted_profile_for(&c).unwrap();
        assert_eq!(p.email, email.replace('=', "").replace('&', ""));
        assert_eq!(p.uid, 10);
        assert_eq!(p.role, "user");
    }
}

#[test]
fn deserialize_profile_fields() {
    let p = Cookie::deserialize_profile("role=admin&x=1&uid=42&email=a@b").unwrap();
    assert_eq!(p.email, "a@b");
    assert_eq!(p.uid, 42);
    assert_eq!(p.role, "admin");
}

#[test]
fn deserialize_profile_errors() {
    assert!(matches!(Cookie::deserialize_profile("email=a&uid=10"), Err(CryptoError::DecodeError)));
    assert!(matches!(Cookie::deserialize_profile("email=a&uid=x&role=user"), Err(CryptoError::DecodeError)));
    assert!(matches!(Cookie::deserialize_profile("email=a&uid=1&uid=2&role=user"), Err(CryptoError::DecodeError)));
    assert!(matches!(Cookie::deserialize_profile("email=a&uid=99999999999999999999999&role=u"), Err(CryptoError::DecodeError)));
}

#[test]
fn decrypted_profile_errors() {
    let cookie = Cookie::new_with_key(KEY);
    assert!(matches!(cookie.decrypted_profile_for(&[0u8; 17]), Err(CryptoError::DecodeError)));
    let mut block = b"email=a&uid=1&ro".to_vec();
    block.extend_from_slice(&[3u8; 15]);
    block.push(5);
    let c = encrypt_ecb(KEY.as_bytes(), &block);
    assert!(matches!(cookie.decrypted_profile_for(&c), Err(CryptoError::PaddingError)));
    let c = encrypt_ecb_text(&[0xff, 0xfe], KEY.as_bytes());
    assert!(matches!(cookie.decrypted_profile_for(&c), Err(CryptoError::DecodeError)));
}

#[test]
fn url_form_cookies() {
    let mut m = HashMap::new();
    m.insert("email", "a b&c");
    let s = Cookie::serialize_cookie(m).unwrap();
    assert_eq!(s, "email=a+b%26c");
    let back = Cookie::deserialize_cookie(&s).unwrap();
    assert_eq!(back.get("email").map(|v| v.as_str()), Some("a b&c"));
}

#[test]
fn mode_detection_ciphertext_is_aligned() {
    let mut oracle = Oracle::new();
    assert_eq!(oracle.last_mode, Mode::Unset);
    for n in 0..100usize {
        let c = oracle.randomly_mangled_encrypted_text(&vec![b'A'; n]);
        assert_eq!(c.len() % 16, 0);
        assert!(c.len() >= n + 10);
        assert!(oracle.last_mode == Mode::Ecb || oracle.last_mode == Mode::Cbc);
        assert!(oracle.last_key.is_none());
    }
}

#[test]
fn mode_detection_reveals_ecb() {
    let mut oracle = Oracle::new();
    for _ in 0..50 {
        let c = oracle.randomly_mangled_encrypted_text(&[b'A'; 48]);
        let repeated = c[16..32] == c[32..48];
        assert_eq!(repeated, oracle.last_mode == Mode::Ecb);
    }
}

#[test]
fn mangled_encryption_is_exact() {
    let c = encrypt_mangled(b"B", b"AAAAAAAAAAAAAAA", b"", false, KEY.as_bytes());
    let mut text = b"AAAAAAAAAAAAAAA".to_vec();
    text.push(b'B');
    assert_eq!(c, encrypt_ecb_text(&text, KEY.as_bytes()));
    let c = encrypt_mangled(b"B", b"AAAAAAAAAAAAAAA", b"", true, KEY.as_bytes());
    assert_eq!(c, encrypt_cbc_text(&text, KEY.as_bytes(), &[0u8; 16]));
}

#[test]
fn append_oracle_needs_configuration() {
    let mut oracle = Oracle::new();
    assert_eq!(oracle.randomly_append_and_encrypt_text(b"A"), Err(CryptoError::MissingConfiguration));
    assert!(oracle.last_key.is_none());
    assert_eq!(oracle.last_mode, Mode::Unset);
}

#[test]
fn append_oracle_bad_base64() {
    assert!(matches!(Oracle::new_with_append_str("!!!!"), Err(CryptoError::DecodeError)));
}

#[test]
fn append_oracle_pins_its_key() {
    let mut oracle = Oracle::new_with_append_str(APPEND_STR).unwrap();
    assert_eq!(oracle.append_str.as_deref(), Some(EXPECTED_STR.as_bytes()));
    let a = oracle.randomly_append_and_encrypt_text(b"AAAA").unwrap();
    let key = oracle.last_key.clone().unwrap();
    let b = oracle.randomly_append_and_encrypt_text(b"AAAA").unwrap();
    assert_eq!(a, b);
    assert_eq!(oracle.last_key.clone().unwrap(), key);
    assert_eq!(oracle.last_mode, Mode::Ecb);
    let mut text = b"AAAA".to_vec();
    text.extend_from_slice(EXPECTED_STR.as_bytes());
    assert_eq!(a, encrypt_ecb_text(&text, &key));
}

#[test]
fn append_oracles_have_their_own_keys() {
    let mut one = Oracle::new_with_append_str(APPEND_STR).unwrap();
    let mut two = Oracle::new_with_append_str(APPEND_STR).unwrap();
    let a = one.randomly_append_and_encrypt_text(b"AAAA").unwrap();
    let b = two.randomly_append_and_encrypt_text(b"AAAA").unwrap();
    assert_eq!(a.len(), b.len());
    assert_ne!(a, b);
}

#[test]
fn error_messages() {
    assert!(!CryptoError::PaddingError.message().is_empty());
    assert!(!CryptoError::MissingConfiguration.message().is_empty());
}

#[test]
fn cbc_round_trip_many_lengths() {
    let key = generate_random_aes_key();
    let iv = [0u8; 16];
    for n in 1..1000usize {
        let plain: Vec<u8> = (0..n).map(|i| (i * 17 % 253) as u8).collect();
        let c = encrypt_cbc_text(&plain, &key, &iv);
        assert_eq!(c.len() % 16, 0);
        assert_eq!(decrypt_cbc_text(&c, &key, &iv).unwrap(), plain);
    }
}

#[test]
fn cbc_known_answer() {
    let key = bytes_of_hex("2b7e151628aed2a6abf7158809cf4f3c");
    let iv = bytes_of_hex("000102030405060708090a0b0c0d0e0f");
    let plain = bytes_of_hex("6bc1bee22e409f96e93d7e117393172aae2d8a571e03ac9c9eb76fac45af8e51");
    let c = encrypt_cbc(&plain, &key, &iv);
    assert_eq!(c, bytes_of_hex("7649abac8119b246cee98e9b12e9197d5086cb9b507219ee95db113a917678b2"));
    assert_eq!(decrypt_cbc(&c, &key, &iv), plain);
}

#[test]
fn cbc_decrypt_errors() {
    let iv = [0u8; 16];
    assert_eq!(decrypt_cbc_text(&[0u8; 20], KEY.as_bytes(), &iv), Err(CryptoError::DecodeError));
    let mut block = [7u8; 16].to_vec();
    block[15] = 0;
    let c = encrypt_cbc(&block, KEY.as_bytes(), &iv);
    assert_eq!(decrypt_cbc_text(&c, KEY.as_bytes(), &iv), Err(CryptoError::PaddingError));
}
