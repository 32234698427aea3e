//! Content hashing. `olivaw.toml` records `sha256:<hex>` of every vendored
//! file at install time; `update` and `check` compare against it to detect
//! user edits. This format is stable: changing it invalidates every recorded
//! manifest.
use vstd::prelude::*;

verus! {

/// The SHA-256 digest of `data` (FIPS 180-4), as computed by the `sha2` crate.
pub uninterp spec fn sha256_of(data: Seq<u8>) -> Seq<u8>;

/// `sha2::Sha256::digest`: the 32-byte SHA-256 digest of `bytes`. The
/// contract names the result (`sha256_of`) and states its length; the
/// digest algorithm itself is not restated.
#[verifier::external_body]
fn sha256_digest(bytes: &[u8]) -> (d: Vec<u8>)
    ensures
        d@ == sha256_of(bytes@),
        d@.len() == 32,
{
    <sha2::Sha256 as sha2::Digest>::digest(bytes).to_vec()
}

/// Lowercase hexadecimal digits.
pub const HEX_LOWER: [char; 16] = ['0', '1', '2', '3', '4', '5', '6', '7', '8', '9', 'a', 'b', 'c', 'd', 'e', 'f'];

/// The lowercase hex digit of a nibble.
pub open spec fn hex_digit(n: u8) -> char
    recommends
        n < 16,
{
    if n < 10 { (n + 48) as char } else { (n + 87) as char }
}

/// `data` as lowercase hex, two digits per byte, high nibble first.
pub open spec fn hex_lower(data: Seq<u8>) -> Seq<char>
    decreases data.len(),
{
    if data.len() == 0 {
        Seq::<char>::empty()
    } else {
        hex_lower(data.drop_last()) + seq![hex_digit(data.last() / 16), hex_digit(data.last() % 16)]
    }
}

/// The recorded form of a content hash: `sha256:` and the digest in hex.
pub open spec fn checksum_text(data: Seq<u8>) -> Seq<char> {
    "sha256:"@ + hex_lower(sha256_of(data))
}

/// The two lowercase hex digits of `b`.
pub open spec fn hex_byte(b: u8) -> Seq<char> {
    seq![hex_digit(b / 16), hex_digit(b % 16)]
}

/// Append the two lowercase hex digits of `b`.
pub fn push_hex_byte(out: &mut String, b: u8)
    ensures
        final(out)@ == old(out)@ + hex_byte(b),
{
    let hi = b / 16;
    let lo = b % 16;
    out.push(HEX_LOWER[hi as usize]);
    out.push(HEX_LOWER[lo as usize]);
    assert(final(out)@ =~= old(out)@ + hex_byte(b));
}

/// `sha256:<lowercase hex>` of `bytes`.
pub fn sha256_hex(bytes: &[u8]) -> (res: String)
    ensures
        res@ == checksum_text(bytes@),
        res@.len() == 71,
{
    let digest = sha256_digest(bytes);
    let mut out = String::new();
    out.push_str("sha256:");
    let ghost head = out@;
    let mut i: usize = 0;
    while i < digest.len()
        invariant
            i <= digest@.len(),
            digest@.len() == 32,
            out@ == head + hex_lower(digest@.take(i as int)),
            hex_lower(digest@.take(i as int)).len() == 2 * i,
        decreases digest@.len() - i,
    {
        let b = digest[i];
        let hi = b / 16;
        let lo = b % 16;
        proof {
            assert(digest@.take(i + 1).drop_last() =~= digest@.take(i as int));
            assert(digest@.take(i + 1).last() == b);
        }
        out.push(HEX_LOWER[hi as usize]);
        out.push(HEX_LOWER[lo as usize]);
        proof {
            assert(HEX_LOWER@[hi as int] == hex_digit(hi)) by {
                reveal_with_fuel(hex_lower, 1);
            }
            assert(HEX_LOWER@[lo as int] == hex_digit(lo));
            assert(out@ =~= head + hex_lower(digest@.take(i + 1)));
        }
        i = i + 1;
    }
    assert(digest@.take(32) =~= digest@);
    assert(head.len() == 7) by { reveal_strlit("sha256:"); }
    out
}

} // verus!
