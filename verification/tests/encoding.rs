//! Encoding helpers against known values and the real outside crates.

use data_service_consumer::utils::{escape_unicode_null, into_base58, into_prefixed_base64};
use data_service_consumer::waves::{
    blake2b256, extract_asset_id, is_valid_base58, is_waves_asset_id, keccak256, Address,
};

#[test]
fn escapes_every_nul() {
    assert_eq!(escape_unicode_null("a\0b"), "a\\0b");
    assert_eq!(escape_unicode_null("\0\0"), "\\0\\0");
    assert_eq!(escape_unicode_null("plain"), "plain");
    assert_eq!(escape_unicode_null(""), "");
}

#[test]
fn base58_round_trips_through_the_real_encoder() {
    let bytes = [0x04u8, 0x30, 0x5e, 0x2b, 0x24, 0x73, 0xf0, 0x58];
    assert_eq!(into_base58(&bytes), "he11owor1d");
    assert_eq!(into_base58(&bytes), bs58::encode(&bytes).into_string());
    assert_eq!(into_base58(&[]), "");
    assert_eq!(into_base58(&[0u8]), "1");
}

#[test]
fn prefixed_base64_of_bytes() {
    assert_eq!(into_prefixed_base64(b"abc"), "base64:YWJj");
    assert_eq!(into_prefixed_base64(b""), "");
}

#[test]
fn asset_id_of_empty_bytes_is_the_native_currency() {
    assert_eq!(extract_asset_id(&[]), "WAVES");
    assert!(is_waves_asset_id(&[]));
    assert_eq!(extract_asset_id(&[0x01]), "2");
    assert!(!is_waves_asset_id(&[0x01]));
}

#[test]
fn should_validate_base58_string() {
    let test_cases = vec![("3PC9BfRwJWWiw9AREE2B3eWzCks3CYtg4yo", true), ("not-valid-string", false)];

    test_cases.into_iter().for_each(|(key, expected)| {
        let actual = is_valid_base58(&key);
        assert_eq!(actual, expected);
    });
}

#[test]
fn digests_match_their_published_test_vectors() {
    let keccak_empty = [
        0xc5u8, 0xd2, 0x46, 0x01, 0x86, 0xf7, 0x23, 0x3c, 0x92, 0x7e, 0x7d, 0xb2, 0xdc, 0xc7,
        0x03, 0xc0, 0xe5, 0x00, 0xb6, 0x53, 0xca, 0x82, 0x27, 0x3b, 0x7b, 0xfa, 0xd8, 0x04, 0x5d,
        0x85, 0xa4, 0x70,
    ];
    assert_eq!(keccak256(b""), keccak_empty.to_vec());
    let blake2b_empty = [
        0x0eu8, 0x57, 0x51, 0xc0, 0x26, 0xe5, 0x43, 0xb2, 0xe8, 0xab, 0x2e, 0xb0, 0x60, 0x99,
        0xda, 0xa1, 0xd1, 0xe5, 0xdf, 0x47, 0x77, 0x8f, 0x77, 0x87, 0xfa, 0xab, 0x45, 0xcd, 0xf1,
        0x2f, 0xe3, 0xa8,
    ];
    assert_eq!(blake2b256(b""), blake2b_empty.to_vec());
}

#[test]
fn derived_addresses_are_framed_and_checksummed() {
    let pk = [7u8; 32];
    let addr = Address::from_public_key(&pk, 87).into_text();
    // the frame is rebuilt by hand from the same digests
    let pkh = keccak256(&blake2b256(&pk));
    let mut raw: Vec<u8> = vec![1, 87];
    raw.extend_from_slice(&pkh[..20]);
    let chk = keccak256(&blake2b256(&raw));
    raw.extend_from_slice(&chk[..4]);
    assert_eq!(addr, bs58::encode(&raw).into_string());
    assert!(is_valid_base58(&addr));
}
