use meshtastic_serial_udp::crypto::{
    apply_keystream, channel_hash, channel_key_from_proto, decrypt_aes_ctr, encrypt_aes_ctr,
    expand_psk, increment_counter, initial_counter_block, DEFAULT_PSK,
};

#[test]
fn test_expand_psk_empty() {
    assert!(expand_psk(&[]).is_empty());
}

#[test]
fn test_expand_psk_one_byte_default() {
    let key = expand_psk(&[1]);
    assert_eq!(key.len(), 16);
    assert_eq!(key[..15], DEFAULT_PSK[..15]);
    assert_eq!(key[15], 1);
}

#[test]
fn test_expand_psk_one_byte_variant() {
    let key = expand_psk(&[5]);
    assert_eq!(key.len(), 16);
    assert_eq!(key[15], 5);
}

#[test]
fn test_expand_psk_16_bytes() {
    let psk = [0u8; 16];
    assert_eq!(expand_psk(&psk), psk);
}

#[test]
fn test_expand_psk_32_bytes() {
    let psk = [0xAB; 32];
    assert_eq!(expand_psk(&psk), psk);
}

#[test]
fn test_channel_hash_default() {
    // "LongFast" with default key (psk=[1] -> expanded)
    let key = expand_psk(&[1]);
    let hash = channel_hash("LongFast", &key);
    let name_xor: u8 = b"LongFast".iter().fold(0u8, |a, b| a ^ b);
    let key_xor: u8 = key.iter().fold(0u8, |a, b| a ^ b);
    assert_eq!(hash, (name_xor ^ key_xor) as u32);
}

#[test]
fn test_channel_hash_empty_name() {
    let key = expand_psk(&[1]);
    let hash = channel_hash("", &key);
    let key_xor: u8 = key.iter().fold(0u8, |a, b| a ^ b);
    assert_eq!(hash, key_xor as u32);
}

#[test]
fn test_encrypt_decrypt_roundtrip() {
    let key = expand_psk(&[1]);
    let plaintext = b"Hello Meshtastic!";
    let from = 0x12345678;
    let id = 0xDEADBEEF;

    let ciphertext = encrypt_aes_ctr(&key, from, id, plaintext);
    assert_ne!(ciphertext, plaintext);
    assert_eq!(ciphertext.len(), plaintext.len());

    let decrypted = decrypt_aes_ctr(&key, from, id, &ciphertext);
    assert_eq!(decrypted, plaintext);
}

#[test]
fn test_encrypt_empty_key_passthrough() {
    let plaintext = b"no crypto";
    let result = encrypt_aes_ctr(&[], 1, 2, plaintext);
    assert_eq!(result, plaintext);
}

#[test]
fn test_encrypt_deterministic() {
    let key = expand_psk(&[1]);
    let plaintext = b"test";
    let c1 = encrypt_aes_ctr(&key, 1, 2, plaintext);
    let c2 = encrypt_aes_ctr(&key, 1, 2, plaintext);
    assert_eq!(c1, c2);
}

#[test]
fn test_different_from_produces_different_ciphertext() {
    let key = expand_psk(&[1]);
    let plaintext = b"test";
    let c1 = encrypt_aes_ctr(&key, 1, 100, plaintext);
    let c2 = encrypt_aes_ctr(&key, 2, 100, plaintext);
    assert_ne!(c1, c2);
}

#[test]
fn test_different_id_produces_different_ciphertext() {
    let key = expand_psk(&[1]);
    let plaintext = b"test";
    let c1 = encrypt_aes_ctr(&key, 1, 100, plaintext);
    let c2 = encrypt_aes_ctr(&key, 1, 200, plaintext);
    assert_ne!(c1, c2);
}

#[test]
fn test_channel_key_from_proto() {
    let ck = channel_key_from_proto(0, "LongFast", &[1]);
    assert_eq!(ck.index, 0);
    assert_eq!(ck.name, "LongFast");
    assert_eq!(ck.key.len(), 16);
    assert_eq!(ck.hash, channel_hash("LongFast", &ck.key));
}

#[test]
fn expand_psk_other_lengths_used_as_is() {
    let psk = [7u8, 8, 9];
    assert_eq!(expand_psk(&psk), psk);
    let psk24 = [0x11u8; 24];
    assert_eq!(expand_psk(&psk24), psk24);
}

#[test]
fn expand_psk_default_key_exact() {
    let key = expand_psk(&[1]);
    assert_eq!(key, DEFAULT_PSK);
}

#[test]
fn channel_hash_exact_value() {
    // 'A' ^ 'B' = 0x03, then ^ 0x10 ^ 0x01 = 0x12
    assert_eq!(channel_hash("AB", &[0x10, 0x01]), 0x12);
    assert_eq!(channel_hash("", &[]), 0);
}

#[test]
fn channel_hash_is_split_xor() {
    let key = expand_psk(&[7]);
    let whole = channel_hash("MeshCore", &key);
    let name_only = channel_hash("MeshCore", &[]);
    let key_only = channel_hash("", &key);
    assert_eq!(whole, name_only ^ key_only);
    assert!(whole < 256);
}

#[test]
fn initial_counter_layout() {
    let c = initial_counter_block(0x12345678, 0xDEADBEEF);
    assert_eq!(
        c,
        [0xEF, 0xBE, 0xAD, 0xDE, 0, 0, 0, 0, 0x78, 0x56, 0x34, 0x12, 0, 0, 0, 0]
    );
}

#[test]
fn counter_increment_carries_big_endian() {
    let mut c = [0u8; 16];
    increment_counter(&mut c);
    assert_eq!(c[15], 1);
    let mut d = [0u8; 16];
    d[15] = 0xFF;
    d[14] = 0xFF;
    increment_counter(&mut d);
    assert_eq!(d[13..16], [1, 0, 0]);
    let mut e = [0xFFu8; 16];
    increment_counter(&mut e);
    assert_eq!(e, [0u8; 16]);
}

#[test]
fn apply_keystream_xors_bytewise() {
    let out = apply_keystream(&[0x0F, 0xF0, 0xAA], &[0xFF, 0xFF, 0x0F, 0x99]);
    assert_eq!(out, vec![0xF0, 0x0F, 0xA5]);
    assert!(apply_keystream(&[], &[1, 2]).is_empty());
}

#[test]
fn encrypt_equals_decrypt_and_spans_blocks() {
    let key = expand_psk(&[1]);
    let data: Vec<u8> = (0..40u8).collect();
    let c = encrypt_aes_ctr(&key, 9, 10, &data);
    assert_eq!(c, decrypt_aes_ctr(&key, 9, 10, &data));
    assert_eq!(c.len(), 40);
    assert_eq!(decrypt_aes_ctr(&key, 9, 10, &c), data);
}

#[test]
fn encrypt_aes256_roundtrip() {
    let key = expand_psk(&[0x42; 32]);
    let data = b"thirty-two byte keys use AES-256";
    let c = encrypt_aes_ctr(&key, 3, 4, data);
    assert_ne!(&c[..], &data[..]);
    assert_eq!(decrypt_aes_ctr(&key, 3, 4, &c), data);
    // a 20-byte key is used as AES-128 over its first 16 bytes
    let long16 = [0x42u8; 20];
    assert_eq!(
        encrypt_aes_ctr(&long16, 3, 4, data),
        encrypt_aes_ctr(&long16[..16], 3, 4, data)
    );
}

#[test]
fn short_key_passthrough() {
    let data = b"fifteen byte key";
    assert_eq!(encrypt_aes_ctr(&[1u8; 15], 1, 2, data), data);
}

#[test]
fn aes128_known_answer_zero_key() {
    // id = 0 and from = 0 give the all-zero counter block, so encrypting
    // zeros yields AES-128(0^128, 0^128).
    let out = encrypt_aes_ctr(&[0u8; 16], 0, 0, &[0u8; 16]);
    assert_eq!(
        out,
        vec![
            0x66, 0xe9, 0x4b, 0xd4, 0xef, 0x8a, 0x2c, 0x3b, 0x88, 0x4c, 0xfa, 0x59, 0xca, 0x34, 0x2b,
            0x2e
        ]
    );
}

#[test]
fn aes256_known_answer_zero_key() {
    let out = encrypt_aes_ctr(&[0u8; 32], 0, 0, &[0u8; 16]);
    assert_eq!(
        out,
        vec![
            0xdc, 0x95, 0xc0, 0x78, 0xa2, 0x40, 0x89, 0x89, 0xad, 0x48, 0xa2, 0x14, 0x92, 0x84, 0x20,
            0x87
        ]
    );
}
