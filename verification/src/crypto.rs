//! Channel key material and the Meshtastic AES-CTR packet cipher.

use vstd::prelude::*;

use aes::cipher::generic_array::GenericArray;
use aes::cipher::{BlockEncrypt, KeyInit};

verus! {

/// The well-known default Meshtastic PSK (for the 1-byte shorthand value 1).
pub const DEFAULT_PSK: [u8; 16] = [
    0xd4, 0xf1, 0xbb, 0x3a, 0x20, 0x29, 0x07, 0x59, 0xf0, 0xbc, 0xff, 0xab, 0xcf, 0x4e, 0x69, 0x01,
];

/// The bytes of the default PSK.
pub open spec fn default_psk() -> Seq<u8> {
    DEFAULT_PSK@
}

/// A channel's crypto material, derived from the serial handshake.
#[derive(Debug, Clone)]
pub struct ChannelKey {
    /// The local channel index (0 = primary, 1+ = secondary).
    pub index: u32,
    /// Channel name (empty string for unnamed/default channels).
    pub name: String,
    /// Expanded AES key: the default key with its last byte replaced for a
    /// 1-byte PSK, otherwise the PSK as given (normally 16 or 32 bytes).
    /// Empty if no encryption.
    pub key: Vec<u8>,
    /// The 8-bit channel hash used in the MeshPacket `channel` field.
    pub hash: u32,
}

/// A channel key as plain values.
pub struct ChannelKeyModel {
    pub index: u32,
    pub name: Seq<char>,
    pub key: Seq<u8>,
    pub hash: u32,
}

impl View for ChannelKey {
    type V = ChannelKeyModel;

    open spec fn view(&self) -> ChannelKeyModel {
        ChannelKeyModel { index: self.index, name: self.name@, key: self.key@, hash: self.hash }
    }
}

/// The key that a PSK stands for: none for an empty PSK, the default key
/// with its last byte replaced for a 1-byte PSK, and the PSK itself otherwise.
pub open spec fn expanded_key(psk: Seq<u8>) -> Seq<u8> {
    if psk.len() == 0 {
        Seq::<u8>::empty()
    } else if psk.len() == 1 {
        default_psk().update(15, psk[0])
    } else {
        psk
    }
}

/// XOR of all the bytes of a sequence (0 for the empty sequence).
pub open spec fn xor_all(s: Seq<u8>) -> u8
    decreases s.len(),
{
    if s.len() == 0 {
        0
    } else {
        xor_all(s.drop_last()) ^ s.last()
    }
}

/// The channel hash: XOR of all bytes of the UTF-8 name followed by all bytes of the key.
pub open spec fn channel_hash_spec(name: Seq<char>, key: Seq<u8>) -> u32 {
    xor_all(vstd::utf8::encode_utf8(name) + key) as u32
}

/// The channel key that a channel's index, name and PSK give.
pub open spec fn channel_key_spec(index: u32, name: Seq<char>, psk: Seq<u8>) -> ChannelKeyModel {
    ChannelKeyModel {
        index,
        name,
        key: expanded_key(psk),
        hash: channel_hash_spec(name, expanded_key(psk)),
    }
}

/// Result of encrypting one 16-byte block with AES-128 under a 16-byte key.
pub uninterp spec fn aes128_encrypt(key: Seq<u8>, block: Seq<u8>) -> Seq<u8>;

/// Result of encrypting one 16-byte block with AES-256 under a 32-byte key.
pub uninterp spec fn aes256_encrypt(key: Seq<u8>, block: Seq<u8>) -> Seq<u8>;

/// `aes::Aes128::new` followed by `BlockEncrypt::encrypt_block`: the block
/// encrypted under the key, a function of the two alone.
#[verifier::external_body]
fn aes128_encrypt_block(key: &[u8], block: [u8; 16]) -> (out: [u8; 16])
    requires
        key@.len() == 16,
    ensures
        out@ == aes128_encrypt(key@, block@),
{
    let cipher = aes::Aes128::new(GenericArray::from_slice(key));
    let mut b = GenericArray::from(block);
    cipher.encrypt_block(&mut b);
    b.into()
}

/// `aes::Aes256::new` followed by `BlockEncrypt::encrypt_block`: the block
/// encrypted under the key, a function of the two alone.
#[verifier::external_body]
fn aes256_encrypt_block(key: &[u8], block: [u8; 16]) -> (out: [u8; 16])
    requires
        key@.len() == 32,
    ensures
        out@ == aes256_encrypt(key@, block@),
{
    let cipher = aes::Aes256::new(GenericArray::from_slice(key));
    let mut b = GenericArray::from(block);
    cipher.encrypt_block(&mut b);
    b.into()
}

/// The keystream block for a counter block: AES-256 under the first 32 key
/// bytes when the key has at least 32, else AES-128 under the first 16.
pub open spec fn keystream_block(key: Seq<u8>, counter: Seq<u8>) -> Seq<u8> {
    if key.len() >= 32 {
        aes256_encrypt(key.take(32), counter)
    } else {
        aes128_encrypt(key.take(16), counter)
    }
}

/// The four bytes of `x`, least significant first.
pub open spec fn le_bytes(x: u32) -> Seq<u8> {
    seq![
        (x % 256) as u8,
        ((x / 256) % 256) as u8,
        ((x / 65536) % 256) as u8,
        ((x / 16777216) % 256) as u8,
    ]
}

/// The first counter block: `[packet_id (LE), 0, from (LE), 0]`, 32-bit words.
pub open spec fn initial_counter(from: u32, packet_id: u32) -> Seq<u8> {
    le_bytes(packet_id) + seq![0u8, 0u8, 0u8, 0u8] + le_bytes(from) + seq![0u8, 0u8, 0u8, 0u8]
}

/// Adds one to the number whose big-endian bytes are `c[0..n]`, with the
/// carry stopping at the first byte that does not wrap to 0.
pub open spec fn increment_from(c: Seq<u8>, n: nat) -> Seq<u8>
    decreases n,
{
    if n == 0 || n > c.len() {
        c
    } else {
        let j = n - 1;
        let v = ((c[j] + 1) % 256) as u8;
        if v != 0 {
            c.update(j, v)
        } else {
            increment_from(c.update(j, v), j as nat)
        }
    }
}

/// The counter block that follows `c`: `c` as a 128-bit big-endian number, plus one.
pub open spec fn next_counter(c: Seq<u8>) -> Seq<u8> {
    increment_from(c, 16)
}

/// The counter block `k` blocks after `c`.
pub open spec fn counter_at(c: Seq<u8>, k: nat) -> Seq<u8>
    decreases k,
{
    if k == 0 {
        c
    } else {
        next_counter(counter_at(c, (k - 1) as nat))
    }
}

/// The first `n` keystream bytes from counter block `c`: byte `i` is byte
/// `i % 16` of the keystream block of the counter `i / 16` blocks after `c`.
pub open spec fn keystream_spec(key: Seq<u8>, c: Seq<u8>, n: nat) -> Seq<u8> {
    Seq::new(n, |i: int| keystream_block(key, counter_at(c, (i / 16) as nat))[i % 16])
}

/// Bytewise XOR of `data` with the first bytes of `stream`.
pub open spec fn xor_bytes(data: Seq<u8>, stream: Seq<u8>) -> Seq<u8> {
    Seq::new(data.len(), |i: int| data[i] ^ stream[i])
}

/// The Meshtastic packet cipher: the data unchanged under a key of fewer
/// than 16 bytes; otherwise the data XORed with the AES-CTR keystream that
/// starts at the initial counter block.
pub open spec fn aes_ctr(key: Seq<u8>, from: u32, packet_id: u32, data: Seq<u8>) -> Seq<u8> {
    if key.len() < 16 {
        data
    } else {
        xor_bytes(data, keystream_spec(key, initial_counter(from, packet_id), data.len()))
    }
}

/// The default PSK, as a vector.
fn default_psk_vec() -> (k: Vec<u8>)
    ensures
        k@ == default_psk(),
{
    vstd::slice::slice_to_vec(DEFAULT_PSK.as_slice())
}

/// Expand a PSK from the proto representation to a full key.
/// - 0 bytes: no crypto (empty key)
/// - 1 byte: default key with last byte replaced
/// - 16 or 32 bytes (or any other length): used as-is
pub fn expand_psk(psk: &[u8]) -> (key: Vec<u8>)
    ensures
        key@ == expanded_key(psk@),
{
    if psk.len() == 0 {
        Vec::new()
    } else if psk.len() == 1 {
        let mut key = default_psk_vec();
        key[15] = psk[0];
        key
    } else {
        vstd::slice::slice_to_vec(psk)
    }
}

/// Compute the Meshtastic channel hash: XOR all bytes of name, then XOR all bytes of expanded key.
pub fn channel_hash(name: &str, key: &[u8]) -> (hash: u32)
    ensures
        hash == channel_hash_spec(name@, key@),
        hash < 256,
{
    let name_bytes = name.as_bytes();
    let ghost all = name_bytes@ + key@;
    let mut hash: u8 = 0;
    let mut i: usize = 0;
    while i < name_bytes.len()
        invariant
            0 <= i <= name_bytes@.len(),
            all == name_bytes@ + key@,
            hash == xor_all(all.take(i as int)),
        decreases name_bytes@.len() - i,
    {
        assert(all.take(i + 1).drop_last() =~= all.take(i as int));
        hash = hash ^ name_bytes[i];
        i = i + 1;
    }
    let mut j: usize = 0;
    while j < key.len()
        invariant
            0 <= j <= key@.len(),
            all == name_bytes@ + key@,
            hash == xor_all(all.take(name_bytes@.len() + j)),
        decreases key@.len() - j,
    {
        assert(all.take(name_bytes@.len() + j + 1).drop_last() =~= all.take(name_bytes@.len() + j));
        hash = hash ^ key[j];
        j = j + 1;
    }
    assert(all.take((name_bytes@.len() + key@.len()) as int) =~= all);
    hash as u32
}

/// Encrypt plaintext using Meshtastic AES-CTR.
/// Nonce/counter: `[packet_id(LE32), 0(LE32), from_node(LE32), 0(LE32)]`.
/// Uses AES-128 for 16-byte keys, AES-256 for 32-byte keys.
pub fn encrypt_aes_ctr(key: &[u8], from: u32, packet_id: u32, plaintext: &[u8]) -> (out: Vec<u8>)
    ensures
        out@ == aes_ctr(key@, from, packet_id, plaintext@),
{
    aes_ctr_transform(key, from, packet_id, plaintext)
}

/// Decrypt ciphertext using Meshtastic AES-CTR (symmetric: the same as encrypt).
pub fn decrypt_aes_ctr(key: &[u8], from: u32, packet_id: u32, ciphertext: &[u8]) -> (out: Vec<u8>)
    ensures
        out@ == aes_ctr(key@, from, packet_id, ciphertext@),
{
    aes_ctr_transform(key, from, packet_id, ciphertext)
}

/// Encrypt a single AES block using the appropriate key size.
fn encrypt_block(key: &[u8], block: [u8; 16]) -> (out: [u8; 16])
    requires
        key@.len() >= 16,
    ensures
        out@ == keystream_block(key@, block@),
{
    if key.len() >= 32 {
        aes256_encrypt_block(&key[0..32], block)
    } else {
        aes128_encrypt_block(&key[0..16], block)
    }
}

/// Advance a counter block by one (big-endian carry, as the firmware does).
pub fn increment_counter(counter: &mut [u8; 16])
    ensures
        final(counter)@ == next_counter(old(counter)@),
{
    let ghost c0 = counter@;
    let mut j: usize = 16;
    loop
        invariant_except_break
            0 <= j <= 16,
            counter@.len() == 16,
            increment_from(c0, 16) == increment_from(counter@, j as nat),
        ensures
            counter@ == increment_from(c0, 16),
        decreases j,
    {
        if j == 0 {
            break;
        }
        j = j - 1;
        let v = counter[j].wrapping_add(1);
        counter[j] = v;
        if v != 0 {
            break;
        }
    }
}

/// The initial counter block for a packet: `[packet_id (LE), 0, from (LE), 0]`.
pub fn initial_counter_block(from: u32, packet_id: u32) -> (c: [u8; 16])
    ensures
        c@ == initial_counter(from, packet_id),
{
    let c: [u8; 16] = [
        (packet_id % 256) as u8,
        ((packet_id / 256) % 256) as u8,
        ((packet_id / 65536) % 256) as u8,
        ((packet_id / 16777216) % 256) as u8,
        0u8,
        0u8,
        0u8,
        0u8,
        (from % 256) as u8,
        ((from / 256) % 256) as u8,
        ((from / 65536) % 256) as u8,
        ((from / 16777216) % 256) as u8,
        0u8,
        0u8,
        0u8,
        0u8,
    ];
    assert(c@ =~= initial_counter(from, packet_id));
    c
}

/// The first `len` bytes of the AES-CTR keystream for a packet: a new block
/// is encrypted from the counter whenever the previous one is used up, and
/// the counter then advances.
fn keystream(key: &[u8], from: u32, packet_id: u32, len: usize) -> (ks: Vec<u8>)
    requires
        key@.len() >= 16,
    ensures
        ks@ == keystream_spec(key@, initial_counter(from, packet_id), len as nat),
{
    let mut counter = initial_counter_block(from, packet_id);
    let ghost init = counter@;
    let mut output: Vec<u8> = Vec::new();
    let mut keystream_pos: usize = 16;  // forces a block on the first byte
    let mut keystream_block_bytes: [u8; 16] = [0u8; 16];
    let ghost mut blocks: nat = 0;
    let mut i: usize = 0;
    while i < len
        invariant
            key@.len() >= 16,
            0 <= i <= len,
            init == initial_counter(from, packet_id),
            1 <= keystream_pos <= 16,
            i + 16 == 16 * blocks + keystream_pos,
            counter@ == counter_at(init, blocks),
            blocks > 0 ==> keystream_block_bytes@ == keystream_block(key@, counter_at(init, (blocks - 1) as nat)),
            output@ =~= keystream_spec(key@, init, i as nat),
        decreases len - i,
    {
        if keystream_pos == 16 {
            keystream_block_bytes = encrypt_block(key, counter);
            keystream_pos = 0;
            increment_counter(&mut counter);
            proof {
                blocks = blocks + 1;
            }
        }
        proof {
            vstd::arithmetic::div_mod::lemma_fundamental_div_mod_converse(
                i as int,
                16,
                blocks - 1,
                keystream_pos as int,
            );
        }
        output.push(keystream_block_bytes[keystream_pos]);
        keystream_pos = keystream_pos + 1;
        i = i + 1;
        assert(output@ =~= keystream_spec(key@, init, i as nat));
    }
    output
}

/// XOR each data byte with the keystream byte at the same position.
pub fn apply_keystream(data: &[u8], keystream: &[u8]) -> (out: Vec<u8>)
    requires
        data@.len() <= keystream@.len(),
    ensures
        out@ == xor_bytes(data@, keystream@),
{
    let mut out: Vec<u8> = Vec::new();
    let mut i: usize = 0;
    while i < data.len()
        invariant
            0 <= i <= data@.len(),
            data@.len() <= keystream@.len(),
            out@ =~= xor_bytes(data@.take(i as int), keystream@),
        decreases data@.len() - i,
    {
        out.push(data[i] ^ keystream[i]);
        i = i + 1;
        assert(out@ =~= xor_bytes(data@.take(i as int), keystream@));
    }
    assert(data@.take(data@.len() as int) =~= data@);
    out
}

fn aes_ctr_transform(key: &[u8], from: u32, packet_id: u32, data: &[u8]) -> (out: Vec<u8>)
    ensures
        out@ == aes_ctr(key@, from, packet_id, data@),
{
    if key.len() < 16 {
        return vstd::slice::slice_to_vec(data);
    }
    let ks = keystream(key, from, packet_id, data.len());
    apply_keystream(data, ks.as_slice())
}

/// Build a `ChannelKey` from a channel's index, name and PSK.
pub fn channel_key_from_proto(index: u32, name: &str, psk: &[u8]) -> (ck: ChannelKey)
    ensures
        ck@ == channel_key_spec(index, name@, psk@),
{
    let key = expand_psk(psk);
    // For the hash an empty name is fine: only the key bytes contribute.
    let hash = channel_hash(name, key.as_slice());
    ChannelKey { index, name: name.to_owned(), key, hash }
}

proof fn lemma_xor_cancel(a: u8, b: u8)
    ensures
        (a ^ b) ^ b == a,
{
    assert((a ^ b) ^ b == a) by (bit_vector);
}

/// Decryption undoes encryption: the packet cipher applied twice with the
/// same key, sender and packet id gives the data back, and it never changes
/// the length of the data.
pub proof fn lemma_decrypt_encrypt_roundtrip(key: Seq<u8>, from: u32, packet_id: u32, data: Seq<u8>)
    ensures
        aes_ctr(key, from, packet_id, data).len() == data.len(),
        aes_ctr(key, from, packet_id, aes_ctr(key, from, packet_id, data)) == data,
{
    if key.len() >= 16 {
        let ks = keystream_spec(key, initial_counter(from, packet_id), data.len());
        let once = xor_bytes(data, ks);
        assert forall|i: int| 0 <= i < data.len() implies #[trigger] xor_bytes(once, ks)[i] == data[i] by {
            lemma_xor_cancel(data[i], ks[i]);
        }
        assert(xor_bytes(once, ks) =~= data);
    }
}

/// XOR over a concatenation is the XOR of the XORs of the parts.
pub proof fn lemma_xor_all_append(a: Seq<u8>, b: Seq<u8>)
    ensures
        xor_all(a + b) == xor_all(a) ^ xor_all(b),
    decreases b.len(),
{
    if b.len() == 0 {
        assert(a + b =~= a);
        let x = xor_all(a);
        assert(x ^ 0u8 == x) by (bit_vector);
    } else {
        lemma_xor_all_append(a, b.drop_last());
        assert((a + b).drop_last() =~= a + b.drop_last());
        let x = xor_all(a);
        let y = xor_all(b.drop_last());
        let z = b.last();
        assert((x ^ y) ^ z == x ^ (y ^ z)) by (bit_vector);
    }
}

/// The channel hash is the XOR of the name's bytes XORed with the XOR of the
/// key's bytes, and fits in one byte.
pub proof fn lemma_channel_hash_parts(name: Seq<char>, key: Seq<u8>)
    ensures
        channel_hash_spec(name, key) == (xor_all(vstd::utf8::encode_utf8(name)) ^ xor_all(key)) as u32,
        channel_hash_spec(name, key) < 256,
{
    lemma_xor_all_append(vstd::utf8::encode_utf8(name), key);
}

/// The number whose big-endian bytes are `s`.
pub open spec fn be_value(s: Seq<u8>) -> int
    decreases s.len(),
{
    if s.len() == 0 {
        0
    } else {
        be_value(s.drop_last()) * 256 + s.last() as int
    }
}

/// `256` to the power `n`.
pub open spec fn pow256(n: nat) -> int
    decreases n,
{
    if n == 0 {
        1
    } else {
        pow256((n - 1) as nat) * 256
    }
}

proof fn lemma_be_value_bound(s: Seq<u8>)
    ensures
        0 <= be_value(s) < pow256(s.len()),
        pow256(s.len()) > 0,
    decreases s.len(),
{
    if s.len() > 0 {
        lemma_be_value_bound(s.drop_last());
    }
}

/// Incrementing the first `n` bytes adds one to their big-endian value,
/// wrapping to zero, and leaves the other bytes alone.
proof fn lemma_increment_from(c: Seq<u8>, n: nat)
    requires
        n <= c.len(),
    ensures
        increment_from(c, n).len() == c.len(),
        increment_from(c, n).skip(n as int) == c.skip(n as int),
        be_value(increment_from(c, n).take(n as int)) == if be_value(c.take(n as int)) + 1 == pow256(n) {
            0
        } else {
            be_value(c.take(n as int)) + 1
        },
    decreases n,
{
    let r = increment_from(c, n);
    if n == 0 {
        assert(c.take(0) =~= Seq::<u8>::empty());
        assert(r.take(0) =~= Seq::<u8>::empty());
    } else {
        let j = (n - 1) as nat;
        let v = ((c[j as int] + 1) % 256) as u8;
        let c2 = c.update(j as int, v);
        assert(c.take(n as int).drop_last() =~= c.take(j as int));
        assert(c.take(n as int).last() == c[j as int]);
        lemma_be_value_bound(c.take(j as int));
        if v != 0 {
            assert(r == c2);
            assert(r.take(n as int).drop_last() =~= c.take(j as int));
            assert(r.skip(n as int) =~= c.skip(n as int));
        } else {
            lemma_increment_from(c2, j);
            assert(c2.take(j as int) =~= c.take(j as int));
            assert(r.skip(j as int) == c2.skip(j as int));
            assert(r[j as int] == r.skip(j as int)[0]);
            assert(r.take(n as int).drop_last() =~= r.take(j as int));
            assert(r.skip(n as int) =~= r.skip(j as int).skip(1));
            assert(c2.skip(j as int).skip(1) =~= c.skip(n as int));
        }
    }
}

/// The counter block that follows a 16-byte counter block is one more as a
/// 128-bit big-endian number, wrapping to zero after all ones.
pub proof fn lemma_next_counter_adds_one(c: Seq<u8>)
    requires
        c.len() == 16,
    ensures
        next_counter(c).len() == 16,
        be_value(next_counter(c)) == (be_value(c) + 1) % pow256(16),
{
    lemma_increment_from(c, 16);
    assert(c.take(16) =~= c);
    assert(next_counter(c).take(16) =~= next_counter(c));
    lemma_be_value_bound(c);
    let m = pow256(16);
    assert(m > 0) by {
        reveal_with_fuel(pow256, 17);
    }
    if be_value(c) + 1 == m {
        vstd::arithmetic::div_mod::lemma_fundamental_div_mod_converse(be_value(c) + 1, m, 1, 0);
    } else {
        vstd::arithmetic::div_mod::lemma_fundamental_div_mod_converse(
            be_value(c) + 1,
            m,
            0,
            be_value(c) + 1,
        );
    }
}

/// The counter block `k` blocks after a 16-byte block `c` is `c` plus `k`,
/// as 128-bit big-endian numbers, modulo `2^128`.
pub proof fn lemma_counter_at_adds(c: Seq<u8>, k: nat)
    requires
        c.len() == 16,
    ensures
        counter_at(c, k).len() == 16,
        be_value(counter_at(c, k)) == (be_value(c) + k) % pow256(16),
    decreases k,
{
    let m = pow256(16);
    assert(m > 0) by {
        reveal_with_fuel(pow256, 17);
    }
    lemma_be_value_bound(c);
    if k == 0 {
        vstd::arithmetic::div_mod::lemma_fundamental_div_mod_converse(be_value(c), m, 0, be_value(c));
    } else {
        let k1 = (k - 1) as nat;
        lemma_counter_at_adds(c, k1);
        lemma_next_counter_adds_one(counter_at(c, k1));
        let a = be_value(c) + k1;
        vstd::arithmetic::div_mod::lemma_fundamental_div_mod(a as int, m as int);
        let q = a / m;
        let y = a % m;
        assert(a == q * m + y);
        assert((q + 1) * m == q * m + m) by (nonlinear_arith);
        if y + 1 == m {
            vstd::arithmetic::div_mod::lemma_fundamental_div_mod_converse(a + 1, m, q + 1, 0);
            vstd::arithmetic::div_mod::lemma_fundamental_div_mod_converse(y + 1, m, 1, 0);
        } else {
            vstd::arithmetic::div_mod::lemma_fundamental_div_mod_converse(a + 1, m, q, y + 1);
            vstd::arithmetic::div_mod::lemma_fundamental_div_mod_converse(y + 1, m, 0, y + 1);
        }
    }
}

/// Counter mode: under a key of at least 16 bytes, byte `i` of an encrypted
/// (or decrypted) packet is data byte `i` XORed with byte `i % 16` of the
/// encryption of the 16-byte counter block whose big-endian value is the
/// initial block's plus `i / 16` (modulo `2^128`), for every `i`.
pub proof fn lemma_aes_ctr_counter_mode(key: Seq<u8>, from: u32, packet_id: u32, data: Seq<u8>, i: int)
    requires
        key.len() >= 16,
        0 <= i < data.len(),
    ensures
        aes_ctr(key, from, packet_id, data).len() == data.len(),
        initial_counter(from, packet_id).len() == 16,
        counter_at(initial_counter(from, packet_id), (i / 16) as nat).len() == 16,
        be_value(counter_at(initial_counter(from, packet_id), (i / 16) as nat)) == (be_value(
            initial_counter(from, packet_id),
        ) + i / 16) % pow256(16),
        aes_ctr(key, from, packet_id, data)[i] == data[i] ^ (if key.len() >= 32 {
            aes256_encrypt(key.take(32), counter_at(initial_counter(from, packet_id), (i / 16) as nat))
        } else {
            aes128_encrypt(key.take(16), counter_at(initial_counter(from, packet_id), (i / 16) as nat))
        })[i % 16],
{
    lemma_counter_at_adds(initial_counter(from, packet_id), (i / 16) as nat);
}

/// Consecutive 16-byte blocks of a packet use consecutive counter blocks:
/// the block of bytes `16(b+1)..` is encrypted under the counter that follows
/// the one of the block of bytes `16b..`.
pub proof fn lemma_aes_ctr_next_block(key: Seq<u8>, from: u32, packet_id: u32, data: Seq<u8>, i: int)
    requires
        key.len() >= 16,
        0 <= i,
        i + 16 < data.len(),
    ensures
        counter_at(initial_counter(from, packet_id), ((i + 16) / 16) as nat) == next_counter(
            counter_at(initial_counter(from, packet_id), (i / 16) as nat),
        ),
        (i + 16) % 16 == i % 16,
{
    assert((i + 16) / 16 == i / 16 + 1);
    assert((i + 16) % 16 == i % 16);
}


/// The four bytes of `x` give `x` back, least significant first.
proof fn lemma_le_bytes_value(x: u32)
    ensures
        le_bytes(x).len() == 4,
        le_bytes(x)[0] + 256 * le_bytes(x)[1] + 65536 * le_bytes(x)[2] + 16777216 * le_bytes(x)[3] == x,
{
    assert((x % 256) + 256 * ((x / 256) % 256) + 65536 * ((x / 65536) % 256) + 16777216 * ((x / 16777216)
        % 256) == x) by (bit_vector);
    assert(x / 16777216 < 256) by (bit_vector);
}

/// The first counter block of a packet holds the packet id in bytes 0..4 and
/// the sender's node number in bytes 8..12, each least significant byte
/// first, and zeros elsewhere.
pub proof fn lemma_initial_counter_layout(from: u32, packet_id: u32)
    ensures
        initial_counter(from, packet_id).len() == 16,
        ({
            let c = initial_counter(from, packet_id);
            &&& c[0] + 256 * c[1] + 65536 * c[2] + 16777216 * c[3] == packet_id
            &&& c[8] + 256 * c[9] + 65536 * c[10] + 16777216 * c[11] == from
            &&& forall|i: int| (4 <= i < 8 || 12 <= i < 16) ==> #[trigger] c[i] == 0
        }),
{
    lemma_le_bytes_value(from);
    lemma_le_bytes_value(packet_id);
    let c = initial_counter(from, packet_id);
    let z = seq![0u8, 0u8, 0u8, 0u8];
    assert(c =~= le_bytes(packet_id) + z + le_bytes(from) + z);
    assert(forall|i: int| 0 <= i < 4 ==> c[i] == le_bytes(packet_id)[i]);
    assert(forall|i: int| 0 <= i < 4 ==> c[i + 8] == le_bytes(from)[i]);
}

} // verus!
