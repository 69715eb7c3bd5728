//! Chain-specific value handling: asset ids, addresses derived from
//! public keys, and base58 validity.

use blake2::digest::{Update, VariableOutput};
use sha3::Digest;
use vstd::prelude::*;

use crate::utils::{base58_of, into_base58};

verus! {

/// The asset id the chain's own currency goes by.
pub const WAVES_ID: &'static str = "WAVES";

/// The characters of the native currency's id.
pub open spec fn waves_id_chars() -> Seq<char> {
    seq!['W', 'A', 'V', 'E', 'S']
}

/// What the Keccak-256 digest of given bytes is; it depends on the bytes
/// alone and is always 32 bytes long.
pub uninterp spec fn keccak_of(m: Seq<u8>) -> Seq<u8>;

/// What the Blake2b-256 digest of given bytes is; it depends on the
/// bytes alone and is always 32 bytes long.
pub uninterp spec fn blake2b_of(m: Seq<u8>) -> Seq<u8>;

/// Whether base58 decoding accepts the text; acceptance depends on the
/// characters alone.
pub uninterp spec fn base58_decodable(s: Seq<char>) -> bool;

/// Relies on sha3's Keccak256: a 32-byte digest of the message.
#[verifier::external_body]
pub fn keccak256(message: &[u8]) -> (r: Vec<u8>)
    ensures
        r@ == keccak_of(message@),
        r@.len() == 32,
{
    let mut hasher = sha3::Keccak256::new();
    sha3::Digest::update(&mut hasher, message);
    hasher.finalize().to_vec()
}

/// Relies on blake2's variable-output Blake2b at 32 bytes: a 32-byte
/// digest of the message.
#[verifier::external_body]
pub fn blake2b256(message: &[u8]) -> (r: Vec<u8>)
    ensures
        r@ == blake2b_of(message@),
        r@.len() == 32,
{
    let mut hasher = blake2::Blake2bVar::new(32).unwrap();
    hasher.update(message);
    let mut out = [0u8; 32];
    hasher.finalize_variable(&mut out).unwrap();
    out.to_vec()
}

/// Relies on bs58's decode: whether the text is valid base58.
#[verifier::external_body]
pub fn is_valid_base58(src: &str) -> (r: bool)
    ensures
        r == base58_decodable(src@),
{
    bs58::decode(src).into_vec().is_ok()
}

/// The asset id carried by raw bytes: the native currency's name for the
/// empty id, the base58 text otherwise.
pub open spec fn spec_extract_asset_id(b: Seq<u8>) -> Seq<char> {
    if b.len() == 0 {
        waves_id_chars()
    } else {
        base58_of(b)
    }
}

/// Decodes an asset id from its raw bytes.
pub fn extract_asset_id(asset_id: &[u8]) -> (r: String)
    ensures
        r@ == spec_extract_asset_id(asset_id@),
{
    if asset_id.is_empty() {
        let w = String::from_str(WAVES_ID);
        proof {
            reveal_strlit("WAVES");
            assert(w@ =~= waves_id_chars());
        }
        w
    } else {
        into_base58(asset_id)
    }
}

/// Whether raw bytes denote the chain's own currency.
pub fn is_waves_asset_id(input: &[u8]) -> (r: bool)
    ensures
        r == (spec_extract_asset_id(input@) == waves_id_chars()),
{
    let s = extract_asset_id(input);
    let w = String::from_str(WAVES_ID);
    proof {
        reveal_strlit("WAVES");
        assert(w@ =~= waves_id_chars());
    }
    s == w
}

/// A chain address in its base58 text form.
pub struct Address(pub String);

/// A pre-computed 20-byte public key hash.
pub struct PublicKeyHash(pub Vec<u8>);

/// The raw bytes of the address derived from a 20-byte key hash: a
/// version byte, the chain id, the hash, and a 4-byte checksum.
pub open spec fn spec_address_payload(pkh20: Seq<u8>, chain_id: u8) -> Seq<u8> {
    seq![1u8, chain_id] + pkh20
}

/// The full address bytes: payload plus its checksum.
pub open spec fn spec_address_bytes(pkh20: Seq<u8>, chain_id: u8) -> Seq<u8> {
    spec_address_payload(pkh20, chain_id) + keccak_of(
        blake2b_of(spec_address_payload(pkh20, chain_id)),
    ).take(4)
}

/// The address derived from a public key: its double-hashed key hash,
/// framed and checksummed, in base58.
pub open spec fn spec_address_of_public_key(pk: Seq<u8>, chain_id: u8) -> Seq<char> {
    base58_of(spec_address_bytes(keccak_of(blake2b_of(pk)).take(20), chain_id))
}

/// Appends a prefix of `src` to `dst`.
fn push_prefix(dst: &mut Vec<u8>, src: &Vec<u8>, count: usize)
    requires
        count <= src@.len(),
    ensures
        final(dst)@ == old(dst)@ + src@.take(count as int),
{
    let ghost d0 = dst@;
    let mut i: usize = 0;
    while i < count
        invariant
            count <= src@.len(),
            0 <= i <= count,
            dst@ == d0 + src@.take(i as int),
        decreases count - i,
    {
        dst.push(src[i]);
        proof {
            assert(dst@ =~= d0 + src@.take(i + 1));
        }
        i += 1;
    }
}

impl Address {
    /// Derives the address of a public key on the given chain.
    pub fn from_public_key(pk: &[u8], chain_id: u8) -> (r: Address)
        ensures
            r.0@ == spec_address_of_public_key(pk@, chain_id),
    {
        let pkh = keccak256(blake2b256(pk).as_slice());
        let mut addr: Vec<u8> = Vec::new();
        addr.push(1u8);
        addr.push(chain_id);
        push_prefix(&mut addr, &pkh, 20);
        proof {
            assert(addr@ =~= spec_address_payload(pkh@.take(20), chain_id));
        }
        let chks = keccak256(blake2b256(addr.as_slice()).as_slice());
        push_prefix(&mut addr, &chks, 4);
        proof {
            assert(addr@ =~= spec_address_bytes(pkh@.take(20), chain_id));
        }
        Address(into_base58(addr.as_slice()))
    }

    /// Frames and checksums a pre-computed 20-byte key hash.
    pub fn from_public_key_hash(hash: &PublicKeyHash, chain_id: u8) -> (r: Address)
        requires
            hash.0@.len() == 20,
        ensures
            r.0@ == base58_of(spec_address_bytes(hash.0@, chain_id)),
    {
        let mut addr: Vec<u8> = Vec::new();
        addr.push(1u8);
        addr.push(chain_id);
        push_prefix(&mut addr, &hash.0, 20);
        proof {
            assert(hash.0@.take(20) =~= hash.0@);
            assert(addr@ =~= spec_address_payload(hash.0@, chain_id));
        }
        let chks = keccak256(blake2b256(addr.as_slice()).as_slice());
        push_prefix(&mut addr, &chks, 4);
        proof {
            assert(addr@ =~= spec_address_bytes(hash.0@, chain_id));
        }
        Address(into_base58(addr.as_slice()))
    }

    /// The address's base58 text.
    pub fn into_text(self) -> (r: String)
        ensures
            r == self.0,
    {
        self.0
    }
}

} // verus!
