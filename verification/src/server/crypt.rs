//! The encryption of objects, directories and directory versions.
//!
//! Every key is 32 bytes wide: the first 16 bytes are the AES-128 key for
//! directories and their versions, the last 16 bytes the AES-128 key for
//! objects, and all 32 bytes together the HMAC secret of the block layer.
//!
//! An object or directory starts with a 32-byte session prefix: a random key
//! and IV, encrypted in CBC mode under the relevant half of the master key
//! with an IV of zero. The content follows, encrypted in CBC mode under the
//! session key and IV; objects are padded with PKCS, directories are not, so
//! that more data can be appended to a directory with the last ciphertext
//! block as IV. Nothing here authenticates the content: that is what the
//! HMACs of the block layer are for.

use crate::defs::{
    append_bytes, block_from_slice, hash_from_slice, sha3, sha3_256, HashId,
};
use crate::errors::Error;
use ::rand::Rng;
use vstd::bytes::{
    lemma_auto_spec_u64_to_from_le_bytes, spec_u64_from_le_bytes, spec_u64_to_le_bytes,
    u64_from_le_bytes, u64_to_le_bytes,
};
use vstd::prelude::*;
use vstd::slice::slice_subrange;

verus! {

/// The size of an AES block, and of an AES-128 key.
pub const BLKSZ: usize = 16;

/// What AES-128 in CBC mode, without padding, makes of `data` under `key` and
/// `iv`.
pub uninterp spec fn aes128_cbc_encrypted(key: Seq<u8>, iv: Seq<u8>, data: Seq<u8>) -> Seq<u8>;

/// What AES-128 in CBC mode, without padding, recovers from `data` under
/// `key` and `iv`.
pub uninterp spec fn aes128_cbc_decrypted(key: Seq<u8>, iv: Seq<u8>, data: Seq<u8>) -> Seq<u8>;

/// The last 16 bytes of `data`.
pub open spec fn last_block(data: Seq<u8>) -> Seq<u8> {
    data.subrange(data.len() - 16, data.len() as int)
}

/// The longest prefix of `data` made of whole AES blocks.
pub open spec fn whole_blocks(data: Seq<u8>) -> Seq<u8> {
    data.take(data.len() - data.len() % 16)
}

/// Whether the ciphertext `out` of `src` under `key` and `iv` continues any
/// ciphertext that ends in `iv`: decrypting the two in one run recovers the
/// earlier cleartext followed by `src`.
pub open spec fn chains_after(key: Seq<u8>, iv: Seq<u8>, src: Seq<u8>, out: Seq<u8>) -> bool {
    forall|iv0: Seq<u8>, prior: Seq<u8>|
        #![trigger aes128_cbc_decrypted(key, iv0, prior + out)]
        iv0.len() == 16 && prior.len() >= 16 && prior.len() % 16 == 0 && last_block(prior) == iv
            ==> aes128_cbc_decrypted(key, iv0, prior + out) == aes128_cbc_decrypted(
            key,
            iv0,
            prior,
        ) + src
}

/// Calls `crypto::aes::cbc_encryptor` for AES-128 without padding and passes
/// all of `data` through the encryptor it returns, in one pass that ends the
/// stream.
///
/// The contract names the ciphertext and claims three things of it. It is as
/// long as the cleartext. The CBC decryptor inverts it under the same key and
/// IV. And CBC chains (`chains_after`): each block is decrypted with the
/// ciphertext block before it, so where `iv` is the last block of some
/// earlier ciphertext under the same key, the decryptor, run over that
/// ciphertext followed by this one, recovers the earlier cleartext followed
/// by `data`.
#[verifier::external_body]
fn aes_cbc_encrypt(key: &[u8], iv: &[u8], data: &[u8]) -> (out: Vec<u8>)
    requires
        key@.len() == 16,
        iv@.len() == 16,
        data@.len() % 16 == 0,
    ensures
        out@ == aes128_cbc_encrypted(key@, iv@, data@),
        out@.len() == data@.len(),
        aes128_cbc_decrypted(key@, iv@, out@) == data@,
        chains_after(key@, iv@, data@, out@),
{
    let mut out = vec![0u8; data.len()];
    let mut enc = crypto::aes::cbc_encryptor(
        crypto::aes::KeySize::KeySize128,
        key,
        iv,
        crypto::blockmodes::NoPadding,
    );
    let mut reader = crypto::buffer::RefReadBuffer::new(data);
    let mut writer = crypto::buffer::RefWriteBuffer::new(&mut out);
    let _ = enc.encrypt(&mut reader, &mut writer, true);
    out
}

/// Calls `crypto::aes::cbc_decryptor` for AES-128 without padding and passes
/// all of `data` through the decryptor it returns, in one pass that ends the
/// stream. The contract names the cleartext and claims that it is as long as
/// the ciphertext.
#[verifier::external_body]
fn aes_cbc_decrypt(key: &[u8], iv: &[u8], data: &[u8]) -> (out: Vec<u8>)
    requires
        key@.len() == 16,
        iv@.len() == 16,
        data@.len() % 16 == 0,
    ensures
        out@ == aes128_cbc_decrypted(key@, iv@, data@),
        out@.len() == data@.len(),
{
    let mut out = vec![0u8; data.len()];
    let mut dec = crypto::aes::cbc_decryptor(
        crypto::aes::KeySize::KeySize128,
        key,
        iv,
        crypto::blockmodes::NoPadding,
    );
    let mut reader = crypto::buffer::RefReadBuffer::new(data);
    let mut writer = crypto::buffer::RefWriteBuffer::new(&mut out);
    let _ = dec.decrypt(&mut reader, &mut writer, true);
    out
}

/// Fills `buf` with bytes from the operating system's random source, through
/// `rand::OsRng`. Nothing is known of the bytes. Panics if the operating
/// system has no random source to offer.
#[verifier::external_body]
pub fn rand(buf: &mut [u8])
    ensures
        final(buf)@.len() == old(buf)@.len(),
{
    ::rand::OsRng::new().expect("Failed to create OsRng").fill_bytes(buf)
}

/// A random identifier.
pub fn rand_hashid() -> HashId {
    let mut h: HashId = [0u8;32];
    rand(&mut h);
    h
}

/// The byte-wise exclusive or of two identifiers.
pub open spec fn xor_seq(a: Seq<u8>, b: Seq<u8>) -> Seq<u8> {
    Seq::new(32, |i: int| a[i] ^ b[i])
}

/// The byte-wise exclusive or of two identifiers.
pub fn hixor(a: &HashId, b: &HashId) -> (out: HashId)
    ensures
        out@ == xor_seq(a@, b@),
{
    let mut out: HashId = [0u8;32];
    let mut i: usize = 0;
    while i < 32
        invariant
            i <= 32,
            forall|j: int| 0 <= j < i ==> out@[j] == a@[j] ^ b@[j],
        decreases 32 - i,
    {
        out[i] = a[i] ^ b[i];
        i += 1;
    }
    assert(out@ =~= xor_seq(a@, b@));
    out
}

/// Applying the same pad twice gives the key back.
pub proof fn lemma_xor_twice(pad: Seq<u8>, key: Seq<u8>)
    requires
        key.len() == 32,
    ensures
        xor_seq(pad, xor_seq(pad, key)) == key,
{
    assert forall|i: int| 0 <= i < 32 implies xor_seq(pad, xor_seq(pad, key))[i] == key[i] by {
        let p = pad[i];
        let k = key[i];
        assert(p ^ (p ^ k) == k) by (bit_vector);
    }
    assert(xor_seq(pad, xor_seq(pad, key)) =~= key);
}

/// The half of a 32-byte key that encrypts directories and their versions.
pub open spec fn dir_half(key: Seq<u8>) -> Seq<u8> {
    key.subrange(0, 16)
}

/// The half of a 32-byte key that encrypts objects.
pub open spec fn obj_half(key: Seq<u8>) -> Seq<u8> {
    key.subrange(16, 32)
}

/// 32 bytes of key material: two AES-128 keys and, as a whole, an HMAC
/// secret.
#[derive(Clone, Copy, PartialEq, Eq)]
pub struct MasterKey(HashId);

impl View for MasterKey {
    type V = Seq<u8>;

    closed spec fn view(&self) -> Seq<u8> {
        self.0@
    }
}

impl MasterKey {
    /// Generates a new, random key.
    pub fn generate_new() -> (this: Self)
        ensures
            this@.len() == 32,
    {
        MasterKey(rand_hashid())
    }

    /// The key made of `bytes`.
    pub fn from_bytes(bytes: HashId) -> (this: Self)
        ensures
            this@ == bytes@,
    {
        MasterKey(bytes)
    }

    /// The bytes of the key.
    pub fn to_bytes(&self) -> (bytes: HashId)
        ensures
            bytes@ == self@,
    {
        self.0
    }

    /// The AES-128 key for directories and their versions.
    pub fn dir_key(&self) -> (key: &[u8])
        ensures
            key@ == dir_half(self@),
            key@.len() == 16,
    {
        slice_subrange(&self.0, 0, BLKSZ)
    }

    /// The AES-128 key for objects.
    pub fn obj_key(&self) -> (key: &[u8])
        ensures
            key@ == obj_half(self@),
            key@.len() == 16,
    {
        slice_subrange(&self.0, BLKSZ, BLKSZ * 2)
    }

    /// The secret for the HMACs of the block layer.
    pub fn hmac_secret(&self) -> (secret: &[u8])
        ensures
            secret@ == self@,
            secret@.len() == 32,
    {
        &self.0
    }

    /// What may be shown of the key: its SHA-3 digest, never its bytes.
    pub fn fingerprint(&self) -> (digest: HashId)
        ensures
            digest@ == sha3_256(self@),
    {
        sha3(&self.0)
    }

    /// Every key is 32 bytes long.
    pub proof fn lemma_len(&self)
        ensures
            self@.len() == 32,
    {
    }
}

/// `data` followed by PKCS padding: between 1 and 16 bytes that each hold
/// their number, so that the whole is a multiple of 16 bytes long.
///
/// The padding is written and taken off here, and the cipher crate is only
/// ever handed whole blocks. Its own PKCS padding differs from this one at
/// two edges. For an empty input it writes nothing, where an empty object is
/// padded here like any other, to one block of sixteen bytes that each hold
/// 16. And it cannot take off a last block whose bytes all hold the same
/// number above 16, which is here dropped as invalid padding. What was
/// written without any block at all is still read as the empty object.
pub open spec fn pkcs_padded(data: Seq<u8>) -> Seq<u8> {
    let n = 16 - data.len() % 16;
    data + Seq::new(n as nat, |i: int| n as u8)
}

/// The number of bytes of PKCS padding at the end of `plain`, where it ends
/// in valid padding. A last byte of zero counts as no padding at all.
pub open spec fn pkcs_padding_len(plain: Seq<u8>) -> Option<nat> {
    let n = plain.last() as nat;
    if n == 0 {
        Some(0nat)
    } else if n <= 16 && (forall|i: int| plain.len() - n <= i < plain.len() ==> plain[i] == n) {
        Some(n)
    } else {
        None
    }
}

/// `plain`, at least one block long, without its padding. Where the padding
/// is invalid the last block is left out as a whole.
pub open spec fn pkcs_stripped(plain: Seq<u8>) -> Seq<u8> {
    match pkcs_padding_len(plain) {
        Some(n) => plain.take(plain.len() - n),
        None => plain.take(plain.len() - 16),
    }
}

/// Stripping what padding added gives the data back.
pub proof fn lemma_pkcs_round_trip(data: Seq<u8>)
    ensures
        pkcs_padded(data).len() % 16 == 0,
        pkcs_padded(data).len() >= 16,
        pkcs_padded(data).len() == data.len() + 16 - data.len() % 16,
        pkcs_stripped(pkcs_padded(data)) == data,
{
    let n = 16 - data.len() % 16;
    let padded = pkcs_padded(data);
    assert(padded.last() == n as u8);
    assert(pkcs_padding_len(padded) == Some(n as nat));
    assert(padded.take(padded.len() - n) =~= data);
}

/// `src` followed by PKCS padding.
pub fn pkcs_pad(src: &[u8]) -> (out: Vec<u8>)
    ensures
        out@ == pkcs_padded(src@),
{
    let n: usize = BLKSZ - src.len() % BLKSZ;
    let mut out: Vec<u8> = Vec::new();
    append_bytes(&mut out, src);
    let mut i: usize = 0;
    while i < n
        invariant
            i <= n <= 16,
            n == 16 - src@.len() % 16,
            out@ == src@ + Seq::new(i as nat, |j: int| n as u8),
        decreases n - i,
    {
        out.push(n as u8);
        assert(out@ =~= src@ + Seq::new((i + 1) as nat, |j: int| n as u8));
        i += 1;
    }
    out
}

/// Removes the PKCS padding from `plain`, or its last block where the padding
/// is invalid. Returns whether the padding was valid.
pub fn pkcs_strip(plain: &mut Vec<u8>) -> (valid: bool)
    requires
        old(plain)@.len() >= 16,
    ensures
        final(plain)@ == pkcs_stripped(old(plain)@),
        valid == pkcs_padding_len(old(plain)@).is_some(),
{
    let len = plain.len();
    let last: u8 = plain[len - 1];
    let n: usize = last as usize;
    if n == 0 {
        assert(plain@.take(len as int) =~= plain@);
        return true;
    }
    let mut valid = n <= BLKSZ;
    if valid {
        let mut i: usize = len - n;
        while i < len
            invariant
                len - n <= i <= len,
                1 <= n <= 16 <= len,
                len == plain@.len(),
                last == n,
                valid == (forall|j: int| len - n <= j < i ==> plain@[j] == last),
            decreases len - i,
        {
            let same = plain[i] == last;
            valid = valid && same;
            i += 1;
        }
    }
    if valid {
        plain.truncate(len - n);
    } else {
        plain.truncate(len - BLKSZ);
    }
    valid
}

/// Which way data passes through the cipher.
#[derive(Clone, Copy, Debug, PartialEq, Eq, Structural)]
pub enum Direction {
    Encrypt,
    Decrypt,
}

/// What is added to the last block on encryption and removed on decryption.
#[derive(Clone, Copy, Debug, PartialEq, Eq, Structural)]
pub enum Padding {
    NoPadding,
    PkcsPadding,
}

/// AES-128 in CBC mode, set up with a key, an IV, a direction and a padding.
#[derive(Clone, Copy)]
pub struct Cryptor {
    pub key: [u8; 16],
    pub iv: [u8; 16],
    pub direction: Direction,
    pub padding: Padding,
}

/// Whether the cipher reports an error on `src`: data that is not made of
/// whole blocks, unless padding is added to it, and padding that is invalid
/// where it is to be removed.
pub open spec fn crypt_fails(
    key: Seq<u8>,
    iv: Seq<u8>,
    direction: Direction,
    padding: Padding,
    src: Seq<u8>,
) -> bool {
    match (direction, padding) {
        (Direction::Encrypt, Padding::PkcsPadding) => false,
        (Direction::Decrypt, Padding::PkcsPadding) => src.len() % 16 != 0 || (src.len() > 0
            && pkcs_padding_len(aes128_cbc_decrypted(key, iv, src)) is None),
        (_, Padding::NoPadding) => src.len() % 16 != 0,
    }
}

/// What the cipher makes of `src`. Where it reports an error, this is what it
/// had produced by then: the whole blocks of `src`, without the last one
/// where its padding is invalid.
pub open spec fn crypt_output(
    key: Seq<u8>,
    iv: Seq<u8>,
    direction: Direction,
    padding: Padding,
    src: Seq<u8>,
) -> Seq<u8> {
    match (direction, padding) {
        (Direction::Encrypt, Padding::PkcsPadding) => aes128_cbc_encrypted(
            key,
            iv,
            pkcs_padded(src),
        ),
        (Direction::Encrypt, Padding::NoPadding) => aes128_cbc_encrypted(
            key,
            iv,
            whole_blocks(src),
        ),
        (Direction::Decrypt, Padding::NoPadding) => aes128_cbc_decrypted(
            key,
            iv,
            whole_blocks(src),
        ),
        (Direction::Decrypt, Padding::PkcsPadding) => {
            let plain = aes128_cbc_decrypted(key, iv, whole_blocks(src));
            if src.len() % 16 != 0 || src.len() == 0 {
                plain
            } else {
                pkcs_stripped(plain)
            }
        },
    }
}

impl Cryptor {
    /// Whether the cipher reports an error on `src`.
    pub open spec fn fails(&self, src: Seq<u8>) -> bool {
        crypt_fails(self.key@, self.iv@, self.direction, self.padding, src)
    }

    /// What the cipher makes of `src`.
    pub open spec fn output(&self, src: Seq<u8>) -> Seq<u8> {
        crypt_output(self.key@, self.iv@, self.direction, self.padding, src)
    }
}

/// Appends to `dst` what `crypt` makes of `src`.
///
/// With `panic_on_crypt_err`, `src` must be data on which the cipher reports
/// no error. Without it an error is passed over in silence: `dst` receives
/// what the cipher produced before the error, and a zero byte for each byte of
/// `src` that the cipher had not consumed by then. It consumes all of `src`
/// before it reports an error, so no zero byte is ever written. This keeps
/// decryption from behaving differently in the presence of invalid padding.
pub fn crypt_stream(dst: &mut Vec<u8>, src: &[u8], crypt: &Cryptor, panic_on_crypt_err: bool)
    requires
        panic_on_crypt_err ==> !crypt.fails(src@),
    ensures
        final(dst)@ == old(dst)@ + crypt.output(src@),
        crypt.padding == Padding::NoPadding ==> crypt.output(src@).len() == src@.len() - src@.len()
            % 16,
        crypt.direction == Direction::Encrypt && crypt.padding == Padding::PkcsPadding
            ==> crypt.output(src@).len() == pkcs_padded(src@).len(),
        crypt.direction == Direction::Encrypt && !crypt.fails(src@) ==> crypt_output(
            crypt.key@,
            crypt.iv@,
            Direction::Decrypt,
            crypt.padding,
            crypt.output(src@),
        ) == src@,
        crypt.direction == Direction::Encrypt && crypt.padding == Padding::NoPadding
            && !crypt.fails(src@) ==> chains_after(crypt.key@, crypt.iv@, src@, crypt.output(src@)),
{
    let whole: usize = src.len() - src.len() % BLKSZ;
    let blocks = slice_subrange(src, 0, whole);
    assert(blocks@ == whole_blocks(src@));
    match (crypt.direction, crypt.padding) {
        (Direction::Encrypt, Padding::PkcsPadding) => {
            let padded = pkcs_pad(src);
            proof {
                lemma_pkcs_round_trip(src@);
            }
            let out = aes_cbc_encrypt(&crypt.key, &crypt.iv, padded.as_slice());
            assert(whole_blocks(out@) =~= out@);
            append_bytes(dst, out.as_slice());
        },
        (Direction::Encrypt, Padding::NoPadding) => {
            let out = aes_cbc_encrypt(&crypt.key, &crypt.iv, blocks);
            assert(whole_blocks(out@) =~= out@);
            assert(src@.len() % 16 == 0 ==> blocks@ =~= src@);
            append_bytes(dst, out.as_slice());
        },
        (Direction::Decrypt, Padding::NoPadding) => {
            let out = aes_cbc_decrypt(&crypt.key, &crypt.iv, blocks);
            append_bytes(dst, out.as_slice());
        },
        (Direction::Decrypt, Padding::PkcsPadding) => {
            let mut out = aes_cbc_decrypt(&crypt.key, &crypt.iv, blocks);
            if src.len() % BLKSZ == 0 && src.len() > 0 {
                let _ = pkcs_strip(&mut out);
            }
            append_bytes(dst, out.as_slice());
        },
    }
}

/// The session key and the session IV held by 32 bytes of session material.
pub fn split_key_and_iv(key_and_iv: &[u8; 32]) -> (res: ([u8; 16], [u8; 16]))
    ensures
        res.0@ == key_and_iv@.subrange(0, 16),
        res.1@ == key_and_iv@.subrange(16, 32),
{
    let mut key = [0u8;16];
    let mut iv = [0u8;16];
    let mut i: usize = 0;
    while i < 16
        invariant
            i <= 16,
            forall|j: int| 0 <= j < i ==> key@[j] == key_and_iv@[j],
            forall|j: int| 0 <= j < i ==> iv@[j] == key_and_iv@[j + 16],
        decreases 16 - i,
    {
        key[i] = key_and_iv[i];
        iv[i] = key_and_iv[i + 16];
        i += 1;
    }
    assert(key@ =~= key_and_iv@.subrange(0, 16));
    assert(iv@ =~= key_and_iv@.subrange(16, 32));
    (key, iv)
}

/// An IV of 16 zero bytes.
pub open spec fn zero_iv() -> Seq<u8> {
    Seq::new(16, |i: int| 0u8)
}

/// The session prefix that hides `session` under `master_half`.
pub open spec fn session_prefix(master_half: Seq<u8>, session: Seq<u8>) -> Seq<u8> {
    aes128_cbc_encrypted(master_half, zero_iv(), session)
}

/// The session material that the session prefix `prefix` hides under
/// `master_half`.
pub open spec fn session_of(master_half: Seq<u8>, prefix: Seq<u8>) -> Seq<u8> {
    aes128_cbc_decrypted(master_half, zero_iv(), prefix)
}

/// The cipher that hides and reveals session prefixes under `master`.
fn prefix_cryptor(master: &[u8], direction: Direction) -> (crypt: Cryptor)
    requires
        master@.len() == 16,
    ensures
        crypt.key@ == master@,
        crypt.iv@ == zero_iv(),
        crypt.direction == direction,
        crypt.padding == Padding::NoPadding,
{
    let key = block_from_slice(master);
    let iv = [0u8;16];
    assert(iv@ =~= zero_iv());
    Cryptor { key, iv, direction, padding: Padding::NoPadding }
}

/// Writes to `dst` the session prefix that hides `key_and_iv` under `master`,
/// the half of the master key that is in charge, and returns the session key
/// and IV.
pub fn write_cbc_prefix_with(dst: &mut Vec<u8>, master: &[u8], key_and_iv: &[u8; 32]) -> (res: (
    [u8; 16],
    [u8; 16],
))
    requires
        master@.len() == 16,
    ensures
        final(dst)@ == old(dst)@ + session_prefix(master@, key_and_iv@),
        session_prefix(master@, key_and_iv@).len() == 32,
        session_of(master@, session_prefix(master@, key_and_iv@)) == key_and_iv@,
        res.0@ == key_and_iv@.subrange(0, 16),
        res.1@ == key_and_iv@.subrange(16, 32),
{
    let crypt = prefix_cryptor(master, Direction::Encrypt);
    assert(whole_blocks(key_and_iv@) =~= key_and_iv@);
    crypt_stream(dst, key_and_iv, &crypt, true);
    assert(whole_blocks(crypt.output(key_and_iv@)) =~= crypt.output(key_and_iv@));
    split_key_and_iv(key_and_iv)
}

/// Generates a session key and IV, writes their session prefix under `master`
/// to `dst`, and returns them.
pub fn write_cbc_prefix(dst: &mut Vec<u8>, master: &[u8]) -> (res: ([u8; 16], [u8; 16]))
    requires
        master@.len() == 16,
    ensures
        final(dst)@ == old(dst)@ + session_prefix(master@, res.0@ + res.1@),
        session_prefix(master@, res.0@ + res.1@).len() == 32,
        session_of(master@, session_prefix(master@, res.0@ + res.1@)) == res.0@ + res.1@,
{
    let mut key_and_iv = [0u8;32];
    rand(&mut key_and_iv);
    let res = write_cbc_prefix_with(dst, master, &key_and_iv);
    assert(res.0@ + res.1@ =~= key_and_iv@);
    res
}

/// Reads the session prefix at the start of `src` and returns the session key
/// and IV that it hides under `master`. Fails with an I/O error where `src` is
/// too short to hold a session prefix.
pub fn read_cbc_prefix(src: &[u8], master: &[u8]) -> (res: Result<([u8; 16], [u8; 16]), Error>)
    requires
        master@.len() == 16,
    ensures
        src@.len() < 32 ==> res is Err && res->Err_0 is Io,
        src@.len() >= 32 ==> session_of(master@, src@.subrange(0, 32)).len() == 32,
        src@.len() >= 32 ==> res is Ok && res->Ok_0.0@ == session_of(
            master@,
            src@.subrange(0, 32),
        ).subrange(0, 16) && res->Ok_0.1@ == session_of(master@, src@.subrange(0, 32)).subrange(
            16,
            32,
        ),
{
    if src.len() < 32 {
        return Err(Error::Io("failed to fill whole buffer".to_owned()));
    }
    let cipher_head = slice_subrange(src, 0, 32);
    let crypt = prefix_cryptor(master, Direction::Decrypt);
    let mut session: Vec<u8> = Vec::new();
    crypt_stream(&mut session, cipher_head, &crypt, false);
    assert(whole_blocks(cipher_head@) =~= cipher_head@);
    assert(session@ =~= session_of(master@, cipher_head@));
    let key_and_iv = hash_from_slice(session.as_slice());
    Ok(split_key_and_iv(&key_and_iv))
}

/// The ciphertext of the object `src` under the master key `master`, with
/// the session key and IV `session`.
pub open spec fn obj_ciphertext(master: Seq<u8>, session: Seq<u8>, src: Seq<u8>) -> Seq<u8> {
    session_prefix(obj_half(master), session) + crypt_output(
        session.subrange(0, 16),
        session.subrange(16, 32),
        Direction::Encrypt,
        Padding::PkcsPadding,
        src,
    )
}

/// The object that `cipher` holds under the master key `master`, if `cipher`
/// is long enough to start with a session prefix.
pub open spec fn obj_plaintext(master: Seq<u8>, cipher: Seq<u8>) -> Option<Seq<u8>> {
    let session = session_of(obj_half(master), cipher.subrange(0, 32));
    if cipher.len() < 32 || session.len() != 32 {
        None
    } else {
        Some(
            crypt_output(
                session.subrange(0, 16),
                session.subrange(16, 32),
                Direction::Decrypt,
                Padding::PkcsPadding,
                cipher.skip(32),
            ),
        )
    }
}

/// Encrypts the object `src` under `master` with the session key and IV
/// `key_and_iv`, and appends the ciphertext to `dst`. Decrypting what was
/// appended gives `src` back.
pub fn encrypt_obj_with(dst: &mut Vec<u8>, src: &[u8], master: &MasterKey, key_and_iv: &[u8; 32])
    ensures
        final(dst)@ == old(dst)@ + obj_ciphertext(master@, key_and_iv@, src@),
        obj_plaintext(master@, obj_ciphertext(master@, key_and_iv@, src@)) == Some(src@),
{
    let ghost prefix = session_prefix(obj_half(master@), key_and_iv@);
    let (key, iv) = write_cbc_prefix_with(dst, master.obj_key(), key_and_iv);
    let crypt = Cryptor { key, iv, direction: Direction::Encrypt, padding: Padding::PkcsPadding };
    crypt_stream(dst, src, &crypt, true);
    proof {
        let body = crypt.output(src@);
        let cipher = obj_ciphertext(master@, key_and_iv@, src@);
        assert(dst@ =~= old(dst)@ + cipher);
        assert(cipher.subrange(0, 32) =~= prefix);
        assert(cipher.skip(32) =~= body);
    }
}

/// Encrypts the object `src` under `master` with a fresh session key and IV,
/// and appends the ciphertext to `dst`. Decrypting what was appended gives
/// `src` back.
pub fn encrypt_obj(dst: &mut Vec<u8>, src: &[u8], master: &MasterKey)
    ensures
        exists|session: Seq<u8>|
            session.len() == 32 && final(dst)@ == old(dst)@ + #[trigger] obj_ciphertext(
                master@,
                session,
                src@,
            ) && obj_plaintext(master@, obj_ciphertext(master@, session, src@)) == Some(src@),
{
    let mut key_and_iv = [0u8;32];
    rand(&mut key_and_iv);
    encrypt_obj_with(dst, src, master, &key_and_iv);
    assert(dst@ == old(dst)@ + obj_ciphertext(master@, key_and_iv@, src@));
}

/// Reverses `encrypt_obj`: appends to `dst` the object that `src` holds under
/// `master`. Fails with an I/O error, and writes nothing, where `src` is too
/// short to start with a session prefix.
pub fn decrypt_obj(dst: &mut Vec<u8>, src: &[u8], master: &MasterKey) -> (res: Result<(), Error>)
    ensures
        match obj_plaintext(master@, src@) {
            Some(plain) => res is Ok && final(dst)@ == old(dst)@ + plain,
            None => res is Err && res->Err_0 is Io && final(dst)@ == old(dst)@,
        },
{
    let (key, iv) = match read_cbc_prefix(src, master.obj_key()) {
        Ok(session) => session,
        Err(e) => {
            assert(dst@ =~= old(dst)@);
            return Err(e);
        },
    };
    let body = slice_subrange(src, 32, src.len());
    let crypt = Cryptor { key, iv, direction: Direction::Decrypt, padding: Padding::PkcsPadding };
    crypt_stream(dst, body, &crypt, false);
    assert(body@ =~= src@.skip(32));
    Ok(())
}

/// The ciphertext of the directory content `src` under the master key
/// `master`, with the session key and IV `session`.
pub open spec fn dir_ciphertext(master: Seq<u8>, session: Seq<u8>, src: Seq<u8>) -> Seq<u8> {
    session_prefix(dir_half(master), session) + crypt_output(
        session.subrange(0, 16),
        session.subrange(16, 32),
        Direction::Encrypt,
        Padding::NoPadding,
        src,
    )
}

/// The session key and the content that the directory `cipher` holds under
/// the master key `master`, if `cipher` is long enough to start with a
/// session prefix.
pub open spec fn dir_plaintext(master: Seq<u8>, cipher: Seq<u8>) -> Option<(Seq<u8>, Seq<u8>)> {
    let session = session_of(dir_half(master), cipher.subrange(0, 32));
    if cipher.len() < 32 || session.len() != 32 {
        None
    } else {
        Some(
            (
                session.subrange(0, 16),
                crypt_output(
                    session.subrange(0, 16),
                    session.subrange(16, 32),
                    Direction::Decrypt,
                    Padding::NoPadding,
                    cipher.skip(32),
                ),
            ),
        )
    }
}

/// Whether `appended`, the ciphertext of `src` under the session key `key`
/// and the IV `iv`, continues every directory that it is appended to with
/// that key and IV: where a directory of whole blocks, with content, has the
/// session key `key` and ends in `iv`, the directory followed by `appended`
/// holds the earlier content followed by `src`.
pub open spec fn extends_dir(key: Seq<u8>, iv: Seq<u8>, src: Seq<u8>, appended: Seq<u8>) -> bool {
    forall|master: Seq<u8>, prior: Seq<u8>|
        #![trigger dir_plaintext(master, prior + appended)]
        prior.len() >= 48 && prior.len() % 16 == 0 && last_block(prior) == iv && dir_plaintext(
            master,
            prior,
        ) is Some && dir_plaintext(master, prior)->Some_0.0 == key ==> dir_plaintext(
            master,
            prior + appended,
        ) == Some((key, dir_plaintext(master, prior)->Some_0.1 + src))
}

/// Encrypts the whole directory content `src` under `master` with the session
/// key and IV `key_and_iv`, appends the ciphertext to `dst` and returns the
/// session key. `src` must be made of whole blocks.
pub fn encrypt_whole_dir_with(
    dst: &mut Vec<u8>,
    src: &[u8],
    master: &MasterKey,
    key_and_iv: &[u8; 32],
) -> (key: [u8; 16])
    requires
        src@.len() % 16 == 0,
    ensures
        final(dst)@ == old(dst)@ + dir_ciphertext(master@, key_and_iv@, src@),
        dir_ciphertext(master@, key_and_iv@, src@).len() == 32 + src@.len(),
        key@ == key_and_iv@.subrange(0, 16),
        dir_plaintext(master@, dir_ciphertext(master@, key_and_iv@, src@)) == Some((key@, src@)),
{
    let ghost prefix = session_prefix(dir_half(master@), key_and_iv@);
    let (key, iv) = write_cbc_prefix_with(dst, master.dir_key(), key_and_iv);
    let crypt = Cryptor { key, iv, direction: Direction::Encrypt, padding: Padding::NoPadding };
    crypt_stream(dst, src, &crypt, true);
    proof {
        let body = crypt.output(src@);
        let cipher = dir_ciphertext(master@, key_and_iv@, src@);
        assert(dst@ =~= old(dst)@ + cipher);
        assert(cipher.subrange(0, 32) =~= prefix);
        assert(cipher.skip(32) =~= body);
    }
    key
}

/// Encrypts the whole directory content `src` under `master` with a fresh
/// session key and IV, appends the ciphertext to `dst` and returns the
/// session key, with which more content can be appended. `src` must be made
/// of whole blocks.
pub fn encrypt_whole_dir(dst: &mut Vec<u8>, src: &[u8], master: &MasterKey) -> (key: [u8; 16])
    requires
        src@.len() % 16 == 0,
    ensures
        final(dst)@.len() == old(dst)@.len() + 32 + src@.len(),
        exists|session: Seq<u8>|
            session.len() == 32 && key@ == session.subrange(0, 16) && final(dst)@ == old(dst)@
                + #[trigger] dir_ciphertext(master@, session, src@) && dir_plaintext(
                master@,
                dir_ciphertext(master@, session, src@),
            ) == Some((key@, src@)),
{
    let mut key_and_iv = [0u8;32];
    rand(&mut key_and_iv);
    let key = encrypt_whole_dir_with(dst, src, master, &key_and_iv);
    assert(dst@ == old(dst)@ + dir_ciphertext(master@, key_and_iv@, src@));
    key
}

/// Encrypts content to be appended to a directory, and appends the
/// ciphertext to `dst`.
///
/// `key` is the session key that `encrypt_whole_dir` or `decrypt_whole_dir`
/// returned for the directory, and `iv` what `dir_append_iv` returns for
/// its ciphertext so far. `src` must be made of whole blocks.
pub fn encrypt_append_dir(dst: &mut Vec<u8>, src: &[u8], key: &[u8; 16], iv: &[u8; 16])
    requires
        src@.len() % 16 == 0,
    ensures
        final(dst)@ == old(dst)@ + crypt_output(
            key@,
            iv@,
            Direction::Encrypt,
            Padding::NoPadding,
            src@,
        ),
        final(dst)@.len() == old(dst)@.len() + src@.len(),
        extends_dir(
            key@,
            iv@,
            src@,
            crypt_output(key@, iv@, Direction::Encrypt, Padding::NoPadding, src@),
        ),
{
    let crypt = Cryptor {
        key: *key,
        iv: *iv,
        direction: Direction::Encrypt,
        padding: Padding::NoPadding,
    };
    crypt_stream(dst, src, &crypt, true);
    proof {
        let appended = crypt.output(src@);
        assert forall|master: Seq<u8>, prior: Seq<u8>|
            prior.len() >= 48 && prior.len() % 16 == 0 && last_block(prior) == iv@
                && dir_plaintext(master, prior) is Some && dir_plaintext(
                master,
                prior,
            )->Some_0.0 == key@ implies #[trigger] dir_plaintext(master, prior + appended) == Some(
            (key@, dir_plaintext(master, prior)->Some_0.1 + src@),
        ) by {
            let both = prior + appended;
            let session = session_of(dir_half(master), prior.subrange(0, 32));
            let iv0 = session.subrange(16, 32);
            let body = prior.skip(32);
            assert(both.subrange(0, 32) =~= prior.subrange(0, 32));
            assert(both.skip(32) =~= body + appended);
            assert(whole_blocks(body) =~= body);
            assert(whole_blocks(body + appended) =~= body + appended);
            assert(last_block(body) =~= last_block(prior));
            assert(aes128_cbc_decrypted(key@, iv0, body + appended) == aes128_cbc_decrypted(
                key@,
                iv0,
                body,
            ) + src@);
        }
    }
}

/// Reverses `encrypt_whole_dir` and any calls of `encrypt_append_dir` that
/// followed it: appends to `dst` the content that the directory `src` holds
/// under `master`, and returns its session key. Fails with an I/O error, and
/// writes nothing, where `src` is too short to start with a session prefix.
pub fn decrypt_whole_dir(dst: &mut Vec<u8>, src: &[u8], master: &MasterKey) -> (res: Result<
    [u8; 16],
    Error,
>)
    ensures
        match dir_plaintext(master@, src@) {
            Some(dir) => res is Ok && res->Ok_0@ == dir.0 && final(dst)@ == old(dst)@ + dir.1,
            None => res is Err && res->Err_0 is Io && final(dst)@ == old(dst)@,
        },
{
    let (key, iv) = match read_cbc_prefix(src, master.dir_key()) {
        Ok(session) => session,
        Err(e) => {
            assert(dst@ =~= old(dst)@);
            return Err(e);
        },
    };
    let body = slice_subrange(src, 32, src.len());
    let crypt = Cryptor { key, iv, direction: Direction::Decrypt, padding: Padding::NoPadding };
    crypt_stream(dst, body, &crypt, false);
    assert(body@ =~= src@.skip(32));
    Ok(key)
}

/// The IV with which to append to a directory whose ciphertext so far ends in
/// `data`: its last block.
pub fn dir_append_iv(data: &[u8]) -> (iv: [u8; 16])
    requires
        data@.len() >= 16,
    ensures
        iv@ == last_block(data@),
{
    block_from_slice(slice_subrange(data, data.len() - BLKSZ, data.len()))
}

/// A directory that was encrypted as a whole and then appended to holds all
/// that was written to it, in order: where `whole` holds the non-empty content
/// `first` under `master`, and each of `appended` is the ciphertext of the
/// same position in `chunks`, made with the directory's session key and with
/// the last block of all ciphertext before it as IV, then `whole` followed by
/// all of `appended` holds `first` followed by all of `chunks`.
pub proof fn lemma_dir_appends_round_trip(
    master: Seq<u8>,
    key: Seq<u8>,
    whole: Seq<u8>,
    first: Seq<u8>,
    chunks: Seq<Seq<u8>>,
    appended: Seq<Seq<u8>>,
)
    requires
        whole.len() >= 48,
        whole.len() % 16 == 0,
        dir_plaintext(master, whole) == Some((key, first)),
        chunks.len() == appended.len(),
        forall|i: int| 0 <= i < appended.len() ==> (#[trigger] appended[i]).len() % 16 == 0,
        forall|i: int|
            0 <= i < appended.len() ==> extends_dir(
                key,
                last_block(whole + appended.take(i).flatten()),
                #[trigger] chunks[i],
                appended[i],
            ),
    ensures
        (whole + appended.flatten()).len() % 16 == 0,
        dir_plaintext(master, whole + appended.flatten()) == Some((key, first + chunks.flatten())),
    decreases appended.len(),
{
    if appended.len() == 0 {
        assert(whole + appended.flatten() =~= whole);
        assert(first + chunks.flatten() =~= first);
    } else {
        let n = appended.len() - 1;
        let before = appended.take(n);
        let plain_before = chunks.take(n);
        assert forall|i: int| 0 <= i < before.len() implies extends_dir(
            key,
            last_block(whole + before.take(i).flatten()),
            #[trigger] plain_before[i],
            before[i],
        ) by {
            assert(before.take(i) =~= appended.take(i));
            assert(plain_before[i] == chunks[i]);
        }
        lemma_dir_appends_round_trip(master, key, whole, first, plain_before, before);
        let prior = whole + before.flatten();
        assert(appended =~= before.push(appended[n]));
        assert(chunks =~= plain_before.push(chunks[n]));
        before.lemma_flatten_push(appended[n]);
        plain_before.lemma_flatten_push(chunks[n]);
        assert(whole + appended.flatten() =~= prior + appended[n]);
        assert(first + chunks.flatten() =~= (first + plain_before.flatten()) + chunks[n]);
        assert(extends_dir(key, last_block(prior), chunks[n], appended[n]));
        assert(dir_plaintext(master, prior + appended[n]) == Some(
            (key, dir_plaintext(master, prior)->Some_0.1 + chunks[n]),
        ));
    }
}

/// The IV under which the versions of the directory `dir` are encrypted: the
/// first eight bytes of each half of its identifier, combined by exclusive
/// or, followed by eight zero bytes.
pub open spec fn dir_ver_iv_of(dir: Seq<u8>) -> Seq<u8> {
    Seq::new(
        16,
        |i: int|
            if i < 8 {
                dir[i] ^ dir[i + 16]
            } else {
                0u8
            },
    )
}

/// The cleartext of a directory version: the number in little-endian order,
/// followed by 24 zero bytes.
pub open spec fn version_cleartext(ver: u64) -> Seq<u8> {
    spec_u64_to_le_bytes(ver) + Seq::new(24, |i: int| 0u8)
}

/// The version that the cleartext `clear` holds: zero unless its bytes from
/// the ninth on are all zero.
pub open spec fn version_of_cleartext(clear: Seq<u8>) -> u64 {
    if forall|i: int| 8 <= i < 32 ==> clear[i] == 0 {
        spec_u64_from_le_bytes(clear.subrange(0, 8))
    } else {
        0
    }
}

/// The encrypted form of version `ver` of the directory `dir`.
pub open spec fn dir_ver_ciphertext(dir: Seq<u8>, ver: u64, master: Seq<u8>) -> Seq<u8> {
    aes128_cbc_encrypted(dir_half(master), dir_ver_iv_of(dir), version_cleartext(ver))
}

/// The version of the directory `dir` that `ciphertext` holds, and zero
/// where it holds none.
pub open spec fn dir_ver_of(dir: Seq<u8>, ciphertext: Seq<u8>, master: Seq<u8>) -> u64 {
    version_of_cleartext(aes128_cbc_decrypted(dir_half(master), dir_ver_iv_of(dir), ciphertext))
}

/// What does not hold a version decrypts to zero: where the cleartext that
/// `ciphertext` yields has a byte other than zero behind the number, the
/// version is zero.
pub proof fn lemma_invalid_version_is_zero(
    dir: Seq<u8>,
    ciphertext: Seq<u8>,
    master: Seq<u8>,
    i: int,
)
    requires
        8 <= i < 32,
        aes128_cbc_decrypted(dir_half(master), dir_ver_iv_of(dir), ciphertext)[i] != 0,
    ensures
        dir_ver_of(dir, ciphertext, master) == 0,
{
}

/// The IV under which the versions of the directory `dir` are encrypted.
pub fn dir_ver_iv(dir: &HashId) -> (iv: [u8; 16])
    ensures
        iv@ == dir_ver_iv_of(dir@),
{
    let mut iv = [0u8;16];
    let mut ix: usize = 0;
    while ix < 8
        invariant
            ix <= 8,
            forall|j: int| 0 <= j < ix ==> iv@[j] == dir@[j] ^ dir@[j + 16],
            forall|j: int| ix <= j < 16 ==> iv@[j] == 0,
        decreases 8 - ix,
    {
        iv[ix] = dir[ix] ^ dir[ix + BLKSZ];
        ix += 1;
    }
    assert(iv@ =~= dir_ver_iv_of(dir@));
    iv
}

/// The cipher for the versions of the directory `dir` under `master`.
fn dir_ver_cryptor(dir: &HashId, master: &MasterKey, direction: Direction) -> (crypt: Cryptor)
    ensures
        crypt.key@ == dir_half(master@),
        crypt.iv@ == dir_ver_iv_of(dir@),
        crypt.direction == direction,
        crypt.padding == Padding::NoPadding,
{
    Cryptor {
        key: block_from_slice(master.dir_key()),
        iv: dir_ver_iv(dir),
        direction,
        padding: Padding::NoPadding,
    }
}

/// Encrypts version `ver` of the directory `dir`. The same directory, version
/// and key always give the same result, and decrypting it gives `ver` back.
pub fn encrypt_dir_ver(dir: &HashId, ver: u64, master: &MasterKey) -> (res: HashId)
    ensures
        res@ == dir_ver_ciphertext(dir@, ver, master@),
        dir_ver_of(dir@, res@, master@) == ver,
{
    let mut cleartext = u64_to_le_bytes(ver);
    let mut ix: usize = 8;
    while ix < 32
        invariant
            8 <= ix <= 32,
            cleartext@ == spec_u64_to_le_bytes(ver) + Seq::new((ix - 8) as nat, |i: int| 0u8),
        decreases 32 - ix,
    {
        cleartext.push(0u8);
        assert(cleartext@ =~= spec_u64_to_le_bytes(ver) + Seq::new(
            (ix + 1 - 8) as nat,
            |i: int| 0u8,
        ));
        ix += 1;
    }
    let crypt = dir_ver_cryptor(dir, master, Direction::Encrypt);
    let mut res: Vec<u8> = Vec::new();
    proof {
        lemma_auto_spec_u64_to_from_le_bytes();
        assert(cleartext@.len() == 32);
        assert(whole_blocks(cleartext@) =~= cleartext@);
    }
    crypt_stream(&mut res, cleartext.as_slice(), &crypt, true);
    proof {
        assert(res@ =~= dir_ver_ciphertext(dir@, ver, master@));
        assert(whole_blocks(res@) =~= res@);
        assert(aes128_cbc_decrypted(crypt.key@, crypt.iv@, res@) == cleartext@);
        assert(cleartext@.subrange(0, 8) =~= spec_u64_to_le_bytes(ver));
    }
    hash_from_slice(res.as_slice())
}

/// Reverses `encrypt_dir_ver`. Where `ciphertext` does not hold a version,
/// zero is returned, as if the version had been set back.
pub fn decrypt_dir_ver(dir: &HashId, ciphertext: &HashId, master: &MasterKey) -> (ver: u64)
    ensures
        ver == dir_ver_of(dir@, ciphertext@, master@),
{
    let crypt = dir_ver_cryptor(dir, master, Direction::Decrypt);
    let mut cleartext: Vec<u8> = Vec::new();
    assert(whole_blocks(ciphertext@) =~= ciphertext@);
    crypt_stream(&mut cleartext, ciphertext, &crypt, false);
    assert(cleartext@ =~= aes128_cbc_decrypted(crypt.key@, crypt.iv@, ciphertext@));
    let mut ix: usize = 8;
    while ix < 32
        invariant
            8 <= ix <= 32,
            cleartext@.len() == 32,
            cleartext@ == aes128_cbc_decrypted(
                dir_half(master@),
                dir_ver_iv_of(dir@),
                ciphertext@,
            ),
            forall|i: int| 8 <= i < ix ==> cleartext@[i] == 0,
        decreases 32 - ix,
    {
        if cleartext[ix] != 0 {
            assert(cleartext@[ix as int] != 0);
            return 0;
        }
        ix += 1;
    }
    u64_from_le_bytes(slice_subrange(cleartext.as_slice(), 0, 8))
}

} // verus!
