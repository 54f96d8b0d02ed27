//! Bitcoin address generation: a random secp256k1 secret key, its
//! uncompressed public key, the key's hash, and the Base58Check address.
use vstd::prelude::*;
use crate::buffer::pow256;
use crate::crypto::{checksum_of, double_sha256, ripemd160, ripemd160_digest, sha256, sha256_digest};

verus! {

/// The version byte of mainnet pay-to-public-key-hash addresses.
pub const VERSION_BYTE: u8 = 0x00;

/// The number that `b` encodes, most significant byte first.
pub open spec fn be_value(b: Seq<u8>) -> nat
    decreases b.len(),
{
    if b.len() == 0 {
        0
    } else {
        b[0] as nat * pow256((b.len() - 1) as nat) + be_value(b.drop_first())
    }
}

/// The big-endian bytes of the secp256k1 group order.
pub open spec fn curve_order_bytes() -> Seq<u8> {
    seq![
        0xFFu8, 0xFFu8, 0xFFu8, 0xFFu8, 0xFFu8, 0xFFu8, 0xFFu8, 0xFFu8,
        0xFFu8, 0xFFu8, 0xFFu8, 0xFFu8, 0xFFu8, 0xFFu8, 0xFFu8, 0xFEu8,
        0xBAu8, 0xAEu8, 0xDCu8, 0xE6u8, 0xAFu8, 0x48u8, 0xA0u8, 0x3Bu8,
        0xBFu8, 0xD2u8, 0x5Eu8, 0x8Cu8, 0xD0u8, 0x36u8, 0x41u8, 0x41u8,
    ]
}

/// The order of the secp256k1 group,
/// 0xFFFFFFFF_FFFFFFFF_FFFFFFFF_FFFFFFFE_BAAEDCE6_AF48A03B_BFD25E8C_D0364141.
pub open spec fn curve_order() -> nat {
    be_value(curve_order_bytes())
}

/// Whether 32 bytes are a secp256k1 secret key: read most significant byte
/// first, a number from 1 to the group order minus one.
pub open spec fn valid_secret_key(secret: Seq<u8>) -> bool {
    secret.len() == 32 && 0 < be_value(secret) < curve_order()
}

/// The uncompressed SEC1 encoding of the secp256k1 public key of `secret`.
pub uninterp spec fn secp256k1_public_key(secret: Seq<u8>) -> Seq<u8>;

/// The digits of Bitcoin's Base58, from zero to fifty-seven.
pub open spec fn base58_alphabet() -> Seq<char> {
    seq![
        '1', '2', '3', '4', '5', '6', '7', '8', '9', 'A', 'B', 'C', 'D', 'E', 'F', 'G', 'H',
        'J', 'K', 'L', 'M', 'N', 'P', 'Q', 'R', 'S', 'T', 'U', 'V', 'W', 'X', 'Y', 'Z', 'a',
        'b', 'c', 'd', 'e', 'f', 'g', 'h', 'i', 'j', 'k', 'm', 'n', 'o', 'p', 'q', 'r', 's',
        't', 'u', 'v', 'w', 'x', 'y', 'z',
    ]
}

/// The Base58 digits of `n`, most significant first, without leading zero
/// digits (none at all for zero).
pub open spec fn base58_digits(n: nat) -> Seq<char>
    decreases n,
{
    if n == 0 {
        seq![]
    } else {
        base58_digits(n / 58).push(base58_alphabet()[(n % 58) as int])
    }
}

/// The number of zero bytes that `b` starts with.
pub open spec fn leading_zeros(b: Seq<u8>) -> nat
    decreases b.len(),
{
    if b.len() > 0 && b[0] == 0 {
        1 + leading_zeros(b.drop_first())
    } else {
        0
    }
}

/// The Base58 text of `data`: a `1` for each leading zero byte, then the
/// Base58 digits of the number that `data` spells, most significant byte
/// first.
pub open spec fn base58(data: Seq<u8>) -> Seq<char> {
    Seq::new(leading_zeros(data), |i: int| '1') + base58_digits(be_value(data))
}

/// Fills 32 bytes from `rand::thread_rng()` with `Rng::fill`. Nothing is
/// promised of the bytes.
#[verifier::external_body]
fn random_secret_bytes() -> (bytes: [u8; 32]) {
    let mut bytes = [0u8; 32];
    rand::Rng::fill(&mut rand::thread_rng(), &mut bytes);
    bytes
}

/// Calls `k256::ecdsa::SigningKey::from_bytes` on the secret, takes its
/// `VerifyingKey`, and encodes it uncompressed (`to_encoded_point(false)`).
/// `from_bytes` fails exactly when the secret, read most significant byte
/// first, is zero or not below the group order; the contract excludes those
/// secrets. The result is named `secp256k1_public_key` of the secret; the
/// contract also states the shape of an uncompressed SEC1 point: 65 bytes
/// starting with the tag 4.
#[verifier::external_body]
fn uncompressed_public_key(secret: &[u8; 32]) -> (key: Vec<u8>)
    requires
        valid_secret_key(secret@),
    ensures
        key@ == secp256k1_public_key(secret@),
        key@.len() == 65,
        key@[0] == 4,
{
    let signing_key = k256::ecdsa::SigningKey::from_bytes(secret.into()).expect(
        "32 bytes, within curve order",
    );
    k256::ecdsa::VerifyingKey::from(&signing_key).to_encoded_point(false).to_bytes().to_vec()
}

/// Calls `base58::ToBase58::to_base58`, which encodes `data` as `base58`
/// states. It sizes its digit buffer as `(len - zeros) * 138 / 100 + 1`,
/// which overflows (and panics) past the bound that the contract sets.
#[verifier::external_body]
fn to_base58(data: &[u8]) -> (text: String)
    requires
        (data@.len() - leading_zeros(data@)) * 138 <= usize::MAX,
    ensures
        text@ == base58(data@),
{
    base58::ToBase58::to_base58(data)
}

/// Draws a random 32-byte secret. The bytes come from the thread's random
/// generator; nothing is promised of them, and about one draw in 2^127 is
/// not a valid secret key (see `is_valid_secret_key`).
pub fn generate_private_key() -> (secret: [u8; 32]) {
    random_secret_bytes()
}

/// A number written in `k` bytes is below `256^k`.
proof fn lemma_be_value_bound(b: Seq<u8>)
    ensures
        be_value(b) < pow256(b.len()),
    decreases b.len(),
{
    if b.len() > 0 {
        lemma_be_value_bound(b.drop_first());
        let p = pow256((b.len() - 1) as nat);
        let x = b[0] as nat;
        let rest = be_value(b.drop_first());
        assert(x * p + rest < 256 * p) by (nonlinear_arith)
            requires
                x <= 255,
                rest < p,
        ;
    }
}

/// A byte string that is smaller at its first differing position is the
/// smaller number.
proof fn lemma_be_value_first_difference(a: Seq<u8>, b: Seq<u8>, k: int)
    requires
        a.len() == b.len(),
        0 <= k < a.len(),
        a.subrange(0, k) == b.subrange(0, k),
        a[k] < b[k],
    ensures
        be_value(a) < be_value(b),
    decreases k,
{
    let p = pow256((a.len() - 1) as nat);
    if k == 0 {
        lemma_be_value_bound(a.drop_first());
        let x = a[0] as nat;
        let y = b[0] as nat;
        let ra = be_value(a.drop_first());
        let rb = be_value(b.drop_first());
        assert(x * p + ra < y * p + rb) by (nonlinear_arith)
            requires
                x < y,
                ra < p,
                rb >= 0,
        ;
    } else {
        assert(a[0] == a.subrange(0, k)[0]);
        assert(a.drop_first().subrange(0, k - 1) == a.subrange(0, k).drop_first());
        assert(b.drop_first().subrange(0, k - 1) == b.subrange(0, k).drop_first());
        lemma_be_value_first_difference(a.drop_first(), b.drop_first(), k - 1);
    }
}

/// A byte string is the number zero exactly when all its bytes are zero.
proof fn lemma_be_value_zero(b: Seq<u8>)
    ensures
        be_value(b) == 0 <==> forall|i: int| 0 <= i < b.len() ==> b[i] == 0,
    decreases b.len(),
{
    if b.len() > 0 {
        lemma_be_value_zero(b.drop_first());
        lemma_pow256_positive((b.len() - 1) as nat);
        let p = pow256((b.len() - 1) as nat);
        let x = b[0] as nat;
        assert(x * p == 0 <==> x == 0) by (nonlinear_arith)
            requires
                p > 0,
        ;
        if forall|i: int| 0 <= i < b.len() ==> b[i] == 0 {
            assert forall|i: int| 0 <= i < b.drop_first().len() implies b.drop_first()[i] == 0 by {
                assert(b.drop_first()[i] == b[i + 1]);
            }
        }
        if be_value(b) == 0 {
            assert forall|i: int| 0 <= i < b.len() implies b[i] == 0 by {
                if i > 0 {
                    assert(b[i] == b.drop_first()[i - 1]);
                }
            }
        }
    }
}

/// Powers of 256 are positive.
proof fn lemma_pow256_positive(k: nat)
    ensures
        pow256(k) > 0,
    decreases k,
{
    if k > 0 {
        lemma_pow256_positive((k - 1) as nat);
    }
}

/// Whether `secret` is a valid secp256k1 secret key: not zero, and below the
/// group order when read most significant byte first.
pub fn is_valid_secret_key(secret: &[u8; 32]) -> (r: bool)
    ensures
        r == valid_secret_key(secret@),
{
    let order: [u8; 32] = [
        0xFF, 0xFF, 0xFF, 0xFF, 0xFF, 0xFF, 0xFF, 0xFF, 0xFF, 0xFF, 0xFF, 0xFF, 0xFF, 0xFF, 0xFF,
        0xFE, 0xBA, 0xAE, 0xDC, 0xE6, 0xAF, 0x48, 0xA0, 0x3B, 0xBF, 0xD2, 0x5E, 0x8C, 0xD0, 0x36,
        0x41, 0x41,
    ];
    assert(order@ == curve_order_bytes());
    proof {
        lemma_be_value_zero(secret@);
    }
    let mut any_nonzero = false;
    let mut j: usize = 0;
    while j < 32
        invariant
            j <= 32,
            any_nonzero <==> exists|k: int| 0 <= k < j && secret@[k] != 0,
        decreases 32 - j,
    {
        if secret[j] != 0 {
            any_nonzero = true;
        }
        j = j + 1;
    }
    let mut i: usize = 0;
    while i < 32 && secret[i] == order[i]
        invariant
            i <= 32,
            order@ == curve_order_bytes(),
            secret@.subrange(0, i as int) == order@.subrange(0, i as int),
        decreases 32 - i,
    {
        assert(secret@.subrange(0, i + 1) == secret@.subrange(0, i as int).push(secret@[i as int]));
        assert(order@.subrange(0, i + 1) == order@.subrange(0, i as int).push(order@[i as int]));
        i = i + 1;
    }
    if i == 32 {
        assert(secret@ == secret@.subrange(0, 32));
        assert(order@ == order@.subrange(0, 32));
        return false;
    }
    let below = secret[i] < order[i];
    proof {
        if below {
            lemma_be_value_first_difference(secret@, order@, i as int);
        } else {
            lemma_be_value_first_difference(order@, secret@, i as int);
        }
    }
    below && any_nonzero
}

} // verus!

verus! {

/// Derives the uncompressed public key of a secret key: 65 bytes, the tag 4
/// followed by the point's two coordinates.
pub fn generate_public_key(private_key: &[u8; 32]) -> (key: Vec<u8>)
    requires
        valid_secret_key(private_key@),
    ensures
        key@ == secp256k1_public_key(private_key@),
        key@.len() == 65,
        key@[0] == 4,
{
    uncompressed_public_key(private_key)
}

/// RIPEMD-160 of SHA-256: the hash that an address is made from.
pub open spec fn public_key_hash(key: Seq<u8>) -> Seq<u8> {
    ripemd160(sha256(key))
}

/// Hashes a public key for use in an address.
pub fn hash_public_key(public_key: &[u8]) -> (hash: Vec<u8>)
    ensures
        hash@ == public_key_hash(public_key@),
        hash@.len() == 20,
{
    let sha256_hash = sha256_digest(public_key);
    ripemd160_digest(sha256_hash.as_slice())
}

/// The bytes that an address encodes: the version byte, the key hash, and
/// the first four bytes of the double SHA-256 of those two.
pub open spec fn address_payload(public_key_hash: Seq<u8>) -> Seq<u8> {
    let versioned = seq![VERSION_BYTE] + public_key_hash;
    versioned + checksum_of(versioned)
}

/// The Base58Check address of a public key hash.
pub fn generate_address(public_key_hash: &[u8]) -> (address: String)
    requires
        (public_key_hash@.len() + 4) * 138 <= usize::MAX,
    ensures
        address@ == base58(address_payload(public_key_hash@)),
        address@.len() > 0 && address@[0] == '1',
{
    let mut address: Vec<u8> = Vec::new();
    address.push(VERSION_BYTE);
    let mut i: usize = 0;
    while i < public_key_hash.len()
        invariant
            i <= public_key_hash@.len(),
            address@ == seq![VERSION_BYTE] + public_key_hash@.subrange(0, i as int),
        decreases public_key_hash@.len() - i,
    {
        address.push(public_key_hash[i]);
        i = i + 1;
    }
    assert(public_key_hash@.subrange(0, i as int) == public_key_hash@);
    let hash = double_sha256(address.as_slice());
    let ghost versioned = address@;
    let mut k: usize = 0;
    while k < 4
        invariant
            k <= 4,
            hash@.len() == 32,
            address@ == versioned + hash@.subrange(0, k as int),
        decreases 4 - k,
    {
        address.push(hash[k]);
        k = k + 1;
    }
    assert(address@ == address_payload(public_key_hash@));
    assert(leading_zeros(address@) >= 1);
    assert(address@.len() == public_key_hash@.len() + 5);
    to_base58(address.as_slice())
}

} // verus!
