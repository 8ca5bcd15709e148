use vstd::prelude::*;
use vstd::string::StringSliceAdditionalSpecFns;

verus! {

/// The 64-bit XXH3 digest of some bytes, with the default seed and secret.
pub uninterp spec fn xxh3_of(bytes: Seq<u8>) -> u64;

/// Upper-case mapping of a text, as `str::to_uppercase` performs it.
pub uninterp spec fn upper_of(s: Seq<char>) -> Seq<char>;

/// Relies on xxhash_rust::xxh3::xxh3_64: the digest depends on the bytes alone.
#[verifier::external_body]
fn xxh3_digest(bytes: &[u8]) -> (r: u64)
    ensures
        r == xxh3_of(bytes@),
{
    xxhash_rust::xxh3::xxh3_64(bytes)
}

/// Relies on uuid::Uuid::new_v4 and its `Display`: a random version 4 id in
/// the hyphenated form, 36 characters long.
#[verifier::external_body]
fn new_uuid_text() -> (r: String)
    ensures
        r@.len() == 36,
{
    uuid::Uuid::new_v4().to_string()
}

/// Relies on str::to_uppercase: the result depends on the characters alone.
#[verifier::external_body]
fn to_upper(s: &str) -> (r: String)
    ensures
        r@ == upper_of(s@),
{
    s.to_uppercase()
}

pub open spec fn hex_char(d: nat) -> char {
    seq!['0', '1', '2', '3', '4', '5', '6', '7', '8', '9', 'A', 'B', 'C', 'D', 'E', 'F'][d as int]
}

/// Upper-case hexadecimal digits of `n`, without leading zeros.
pub open spec fn hex_digits(n: nat) -> Seq<char>
    decreases n,
{
    if n < 16 {
        seq![hex_char(n)]
    } else {
        hex_digits(n / 16).push(hex_char(n % 16))
    }
}

/// Writes `n` in upper-case hexadecimal, without leading zeros.
pub fn hex_upper(n: u64) -> (r: String)
    ensures
        r@ == hex_digits(n as nat),
{
    let digits = "0123456789ABCDEF";
    proof {
        reveal_strlit("0123456789ABCDEF");
        assert(digits@ =~= seq!['0', '1', '2', '3', '4', '5', '6', '7', '8', '9', 'A', 'B', 'C', 'D', 'E', 'F']);
    }
    if n == 0 {
        let r = digits.substring_char(0, 1).to_owned();
        assert(r@ =~= hex_digits(0));
        return r;
    }
    let mut acc = String::new();
    let mut m: u64 = n;
    while m > 0
        invariant
            digits@ == seq!['0', '1', '2', '3', '4', '5', '6', '7', '8', '9', 'A', 'B', 'C', 'D', 'E', 'F'],
            m > 0 ==> hex_digits(n as nat) == hex_digits(m as nat) + acc@,
            m == 0 ==> hex_digits(n as nat) == acc@,
        decreases m,
    {
        let d = (m % 16) as usize;
        let piece = digits.substring_char(d, d + 1);
        assert(piece@ =~= seq![hex_char(d as nat)]);
        let ghost before = acc@;
        acc = piece.to_owned().concat(acc.as_str());
        if m < 16 {
            assert(hex_digits(m as nat) == seq![hex_char(m as nat)]);
        } else {
            assert(hex_digits(m as nat) == hex_digits((m / 16) as nat).push(hex_char((m % 16) as nat)));
            assert(hex_digits((m / 16) as nat) + acc@ =~= hex_digits(m as nat) + before);
        }
        m = m / 16;
    }
    acc
}

/// The content hash of a text: the XXH3 digest of its UTF-8 bytes in
/// upper-case hexadecimal.
pub fn compute_content_hash(content: &str) -> (r: String)
    ensures
        r@ == hex_digits(xxh3_of(content.spec_bytes()) as nat),
{
    let bytes = content.as_bytes();
    let digest = xxh3_digest(bytes);
    hex_upper(digest)
}

/// A fresh random id: a version 4 UUID in hyphenated, upper-case form.
pub fn get_uuid_v4() -> (r: String)
    ensures
        exists|u: Seq<char>| u.len() == 36 && r@ == upper_of(u),
{
    let u = new_uuid_text();
    to_upper(u.as_str())
}

} // verus!
