//! Small encoding helpers shared across the engine.

use base64::Engine;
use vstd::prelude::*;

verus! {

/// What base58 encoding returns for given bytes; the result depends on
/// the bytes alone.
pub uninterp spec fn base58_of(b: Seq<u8>) -> Seq<char>;

/// What base64 encoding (standard alphabet, padded) returns for given
/// bytes; the result depends on the bytes alone.
pub uninterp spec fn base64_of(b: Seq<u8>) -> Seq<char>;

/// Relies on bs58's encode: the base58 digits of the bytes, empty for
/// empty input.
#[verifier::external_body]
pub fn into_base58(b: &[u8]) -> (r: String)
    ensures
        r@ == base58_of(b@),
        b@.len() == 0 ==> r@.len() == 0,
{
    bs58::encode(b).into_string()
}

/// Relies on base64's standard engine: the padded base64 text of the
/// bytes, empty for empty input.
#[verifier::external_body]
pub(crate) fn encode_base64(b: &[u8]) -> (r: String)
    ensures
        r@ == base64_of(b@),
        b@.len() == 0 ==> r@.len() == 0,
{
    base64::engine::general_purpose::STANDARD.encode(b)
}

/// The base64 text of the bytes behind a `base64:` prefix; empty input
/// gives the empty string, with no prefix.
pub fn into_prefixed_base64(b: &[u8]) -> (r: String)
    ensures
        b@.len() > 0 ==> r@ == "base64:"@ + base64_of(b@),
        b@.len() == 0 ==> r@ == Seq::<char>::empty(),
{
    if b.len() > 0 {
        let enc = encode_base64(b);
        let prefix = String::from_str("base64:");
        prefix.concat(enc.as_str())
    } else {
        String::new()
    }
}

/// The text with every NUL character written out as a backslash escape.
pub open spec fn spec_escape_nul(s: Seq<char>) -> Seq<char>
    decreases s.len(),
{
    if s.len() == 0 {
        Seq::<char>::empty()
    } else {
        spec_escape_nul(s.drop_last()) + (if s.last() == '\0' {
            seq!['\\', '0']
        } else {
            seq![s.last()]
        })
    }
}

/// Replaces every NUL character with the two characters `\0`, so the
/// text can live in a store that forbids embedded NULs.
pub fn escape_unicode_null(s: &str) -> (r: String)
    ensures
        r@ == spec_escape_nul(s@),
{
    let ghost sv = s@;
    let n = s.unicode_len();
    let mut out = String::new();
    let mut i: usize = 0;
    while i < n
        invariant
            n == sv.len(),
            sv == s@,
            0 <= i <= n,
            out@ == spec_escape_nul(sv.take(i as int)),
        decreases n - i,
    {
        proof {
            assert(sv.take(i + 1).drop_last() =~= sv.take(i as int));
            assert(sv.take(i + 1).last() == sv[i as int]);
        }
        let c = s.get_char(i);
        if c == '\0' {
            out.append("\\0");
            proof {
                reveal_strlit("\\0");
                assert("\\0"@ =~= seq!['\\', '0']);
                assert(out@ =~= spec_escape_nul(sv.take(i + 1)));
            }
        } else {
            let piece = s.substring_char(i, i + 1);
            out.append(piece);
            proof {
                assert(piece@ =~= seq![sv[i as int]]);
                assert(out@ =~= spec_escape_nul(sv.take(i + 1)));
            }
        }
        i += 1;
    }
    proof {
        assert(sv.take(n as int) =~= sv);
    }
    out
}

} // verus!
