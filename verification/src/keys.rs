//! Key generation, identifier derivation, and the extended-key record.
//!
//! The outside cryptography — the secp256k1 key pair, the SHA-256 digest,
//! and the secure random source — stands behind narrow trusted wrappers;
//! everything derived from their results is verified.

use crate::encoding::encode_address;
use crate::encoding::spec_encode_address;
use secp256k1::rand::RngCore;
use sha2::Digest;
use vstd::prelude::*;

verus! {

/// Length in bytes of a private-key scalar.
pub const SECRET_KEY_LEN: usize = 32;

/// Length in bytes of a compressed public key.
pub const PUBLIC_KEY_LEN: usize = 33;

/// Length in bytes of a chain code.
pub const CHAIN_CODE_LEN: usize = 32;

/// Length in bytes of the extended-key record: one depth byte, the chain
/// code, one padding byte, and the private-key scalar.
pub const EXTENDED_RECORD_LEN: usize = 66;

/// The SHA-256 digest of a byte sequence. The digest itself is computed by
/// an outside library; the contracts only rely on it being a function of the
/// input bytes alone.
pub uninterp spec fn sha256_of(input: Seq<u8>) -> Seq<u8>;

/// Relies on sha2::Sha256 (through the Digest trait): the digest is 32 bytes
/// and depends on the input bytes alone.
#[verifier::external_body]
fn sha256(input: &Vec<u8>) -> (r: Vec<u8>)
    ensures
        r@ == sha256_of(input@),
        r@.len() == 32,
{
    sha2::Sha256::digest(input.as_slice()).to_vec()
}

/// Relies on secp256k1::generate_keypair with the thread-local secure random
/// source: the secret key is a 32-byte scalar and the serialized public key
/// is 33 bytes (compressed form).
#[verifier::external_body]
pub(crate) fn generate_keypair_bytes() -> (r: (Vec<u8>, Vec<u8>))
    ensures
        r.0@.len() == SECRET_KEY_LEN,
        r.1@.len() == PUBLIC_KEY_LEN,
{
    let (sk, pk) = secp256k1::generate_keypair(&mut secp256k1::rand::rng());
    (sk.to_secret_bytes().to_vec(), pk.serialize().to_vec())
}

/// Relies on rand's thread-local secure random source (RngCore::fill_bytes,
/// re-exported through secp256k1) to fill 32 fresh chain-code bytes.
#[verifier::external_body]
pub(crate) fn random_chain_code() -> (r: Vec<u8>)
    ensures
        r@.len() == CHAIN_CODE_LEN,
{
    let mut b = [0u8; 32];
    secp256k1::rand::rng().fill_bytes(&mut b);
    b.to_vec()
}

/// The identifier of a public key: the first twenty bytes of its SHA-256
/// digest.
pub open spec fn spec_pkh(public_key: Seq<u8>) -> Seq<u8> {
    sha256_of(public_key).take(20)
}

/// Derives the 20-byte identifier of a public key.
pub fn derive_pkh(public_key: &Vec<u8>) -> (r: Vec<u8>)
    ensures
        r@ == spec_pkh(public_key@),
        r@.len() == 20,
{
    let digest = sha256(public_key);
    let mut r: Vec<u8> = Vec::new();
    let mut i: usize = 0;
    while i < 20
        invariant
            digest@.len() == 32,
            i <= 20,
            r@ == digest@.take(i as int),
        decreases 20 - i,
    {
        r.push(digest[i]);
        proof {
            assert(digest@.take(i as int + 1) =~= digest@.take(i as int).push(digest@[i as int]));
        }
        i = i + 1;
    }
    proof {
        assert(digest@.take(20) =~= sha256_of(public_key@).take(20));
    }
    r
}

/// Identifier derivation is deterministic: identical public-key bytes give
/// identical identifiers.
pub proof fn lemma_derive_pkh_deterministic(a: Seq<u8>, b: Seq<u8>)
    requires
        a == b,
    ensures
        spec_pkh(a) == spec_pkh(b),
{
}

/// The ASCII byte of one lowercase hexadecimal digit.
pub open spec fn spec_hex_digit(v: u8) -> u8
    recommends
        v < 16,
{
    if v < 10 {
        (48 + v) as u8
    } else {
        (87 + v) as u8
    }
}

/// The lowercase hexadecimal writing of a byte sequence: two digits per
/// byte, high digit first.
pub open spec fn spec_hex(bytes: Seq<u8>) -> Seq<u8> {
    Seq::new(
        2 * bytes.len(),
        |i: int|
            if i % 2 == 0 {
                spec_hex_digit(bytes[i / 2] >> 4u8)
            } else {
                spec_hex_digit(bytes[i / 2] & 15)
            },
    )
}

/// Writes a byte sequence in lowercase hexadecimal.
pub fn hex_encode(bytes: &Vec<u8>) -> (r: Vec<u8>)
    requires
        bytes@.len() <= 16384,
    ensures
        r@ == spec_hex(bytes@),
{
    let n = bytes.len();
    let mut r: Vec<u8> = Vec::new();
    let mut i: usize = 0;
    while i < n
        invariant
            n == bytes@.len(),
            i <= n,
            r@.len() == 2 * i as int,
            forall|t: int| 0 <= t < 2 * i as int ==> r@[t] == spec_hex(bytes@)[t],
        decreases n - i,
    {
        let b = bytes[i];
        let hi = b >> 4u8;
        let lo = b & 15;
        proof {
            assert(b >> 4u8 < 16 && b & 15 < 16) by (bit_vector);
            assert((2 * i as int) / 2 == i as int && (2 * i as int) % 2 == 0);
            assert((2 * i as int + 1) / 2 == i as int && (2 * i as int + 1) % 2 == 1);
        }
        let hid = if hi < 10 {
            48 + hi
        } else {
            87 + hi
        };
        let lod = if lo < 10 {
            48 + lo
        } else {
            87 + lo
        };
        r.push(hid);
        r.push(lod);
        i = i + 1;
    }
    proof {
        assert(r@ =~= spec_hex(bytes@));
    }
    r
}

/// The 66-byte extended-key record: a zero depth byte (a master key, no
/// derivation path), the 32-byte chain code, a zero padding byte, and the
/// 32-byte private-key scalar.
pub open spec fn spec_extended_record(chain_code: Seq<u8>, secret_key: Seq<u8>) -> Seq<u8> {
    seq![0u8] + chain_code + seq![0u8] + secret_key
}

/// The extended-key record is always exactly 66 bytes, laid out as one zero
/// depth byte, the chain code, one zero padding byte, and the scalar.
pub proof fn lemma_extended_record_layout(chain_code: Seq<u8>, secret_key: Seq<u8>)
    requires
        chain_code.len() == CHAIN_CODE_LEN,
        secret_key.len() == SECRET_KEY_LEN,
    ensures
        spec_extended_record(chain_code, secret_key).len() == EXTENDED_RECORD_LEN,
        spec_extended_record(chain_code, secret_key)[0] == 0u8,
        spec_extended_record(chain_code, secret_key).subrange(1, 33) == chain_code,
        spec_extended_record(chain_code, secret_key)[33] == 0u8,
        spec_extended_record(chain_code, secret_key).subrange(34, 66) == secret_key,
{
    assert(spec_extended_record(chain_code, secret_key).subrange(1, 33) =~= chain_code);
    assert(spec_extended_record(chain_code, secret_key).subrange(34, 66) =~= secret_key);
}

/// The human-readable prefix of an encoded extended private key, distinct
/// from any address prefix a search uses.
pub open spec fn spec_xprv_hrp() -> Seq<u8> {
    seq![120u8, 112u8, 114u8, 118u8]
}

/// The prefix bytes of an encoded extended private key (the letters "xprv").
pub fn xprv_hrp() -> (r: Vec<u8>)
    ensures
        r@ == spec_xprv_hrp(),
{
    let mut r: Vec<u8> = Vec::new();
    r.push(120u8);
    r.push(112u8);
    r.push(114u8);
    r.push(118u8);
    proof {
        assert(r@ =~= spec_xprv_hrp());
    }
    r
}

/// Assembles the extended-key record from a chain code and a private key.
pub fn build_extended_record(chain_code: &Vec<u8>, secret_key: &Vec<u8>) -> (r: Vec<u8>)
    requires
        chain_code@.len() == CHAIN_CODE_LEN,
        secret_key@.len() == SECRET_KEY_LEN,
    ensures
        r@ == spec_extended_record(chain_code@, secret_key@),
        r@.len() == EXTENDED_RECORD_LEN,
{
    let mut r: Vec<u8> = Vec::new();
    r.push(0u8);
    let mut i: usize = 0;
    while i < 32
        invariant
            chain_code@.len() == 32,
            i <= 32,
            r@ == seq![0u8] + chain_code@.take(i as int),
        decreases 32 - i,
    {
        r.push(chain_code[i]);
        proof {
            assert(seq![0u8] + chain_code@.take(i as int + 1) =~= (seq![0u8] + chain_code@.take(
                i as int,
            )).push(chain_code@[i as int]));
        }
        i = i + 1;
    }
    proof {
        assert(chain_code@.take(32) =~= chain_code@);
    }
    r.push(0u8);
    let mut k: usize = 0;
    while k < 32
        invariant
            chain_code@.len() == 32,
            secret_key@.len() == 32,
            k <= 32,
            r@ == seq![0u8] + chain_code@ + seq![0u8] + secret_key@.take(k as int),
        decreases 32 - k,
    {
        r.push(secret_key[k]);
        proof {
            assert(seq![0u8] + chain_code@ + seq![0u8] + secret_key@.take(k as int + 1) =~= (
            seq![0u8] + chain_code@ + seq![0u8] + secret_key@.take(k as int)).push(
                secret_key@[k as int],
            ));
        }
        k = k + 1;
    }
    proof {
        assert(secret_key@.take(32) =~= secret_key@);
        assert(r@ =~= spec_extended_record(chain_code@, secret_key@));
    }
    r
}

/// Encodes a found private key as a portable extended key: draws a fresh
/// 32-byte chain code from the secure random source, assembles the 66-byte
/// record, and encodes it under the distinguishing prefix. Returns the chain
/// code beside the encoding; for whatever chain code the source gave, the
/// encoding is exactly the record's.
pub fn encode_extended_key(secret_key: &Vec<u8>) -> (r: (Vec<u8>, Vec<u8>))
    requires
        secret_key@.len() == SECRET_KEY_LEN,
    ensures
        r.0@.len() == CHAIN_CODE_LEN,
        r.1@ == spec_encode_address(spec_xprv_hrp(), spec_extended_record(r.0@, secret_key@)),
{
    let chain_code = random_chain_code();
    let record = build_extended_record(&chain_code, secret_key);
    let hrp = xprv_hrp();
    let encoded = encode_address(&hrp, &record);
    (chain_code, encoded)
}

} // verus!
