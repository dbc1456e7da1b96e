//! Identifier and clock utilities: random ids for branches and commits,
//! content hashing, and the current time.

use vstd::prelude::*;

verus! {

/// A lowercase hexadecimal digit.
pub open spec fn is_lower_hex(c: char) -> bool {
    ('0' <= c && c <= '9') || ('a' <= c && c <= 'f')
}

/// The 64-digit hexadecimal SHA-256 digest of a text; a function of the
/// text alone.
pub uninterp spec fn sha256_hex_of(s: Seq<char>) -> Seq<char>;

/// Relies on sha2's `Sha256` and hex_fmt's `HexFmt`: the hexadecimal form
/// of the input's SHA-256 digest, two lowercase digits per byte of the
/// 32-byte digest.
#[verifier::external_body]
fn sha256_hex(input: &String) -> (r: String)
    ensures
        r@ == sha256_hex_of(input@),
        r@.len() == 64,
        forall|i: int| 0 <= i < r@.len() ==> is_lower_hex(#[trigger] r@[i]),
{
    let mut hasher = <sha2::Sha256 as sha2::Digest>::new();
    sha2::Digest::update(&mut hasher, input.as_bytes());
    let digest = sha2::Digest::finalize(hasher);
    hex_fmt::HexFmt(&digest).to_string()
}

/// Relies on uuid's `Uuid::new_v4` and its hyphenated text form: a random
/// identifier of 36 characters, hyphens at positions 8, 13, 18 and 23,
/// lowercase hexadecimal digits everywhere else. The value is random;
/// nothing more is promised of it.
#[verifier::external_body]
fn uuid_v4() -> (r: String)
    ensures
        r@.len() == 36,
        forall|i: int|
            0 <= i < r@.len() ==> if i == 8 || i == 13 || i == 18 || i == 23 {
                #[trigger] r@[i] == '-'
            } else {
                is_lower_hex(r@[i])
            },
{
    uuid::Uuid::new_v4().to_string()
}

/// Relies on std's `SystemTime::now`: milliseconds since the Unix epoch,
/// or zero on a clock set before it. The value depends on the clock;
/// nothing more is promised of it.
#[verifier::external_body]
fn now_unix_millis() -> (r: u128)
{
    match std::time::SystemTime::now().duration_since(std::time::UNIX_EPOCH) {
        Ok(d) => d.as_millis(),
        Err(_) => 0,
    }
}

/// Generate a random UUID, in its 36-character hyphenated form.
pub fn uuid() -> (r: String)
    ensures
        r@.len() == 36,
        forall|i: int|
            0 <= i < r@.len() ==> if i == 8 || i == 13 || i == 18 || i == 23 {
                #[trigger] r@[i] == '-'
            } else {
                is_lower_hex(r@[i])
            },
{
    uuid_v4()
}

/// Create an SHA-256 hash of a string: 64 lowercase hexadecimal digits.
pub fn hash(input: String) -> (r: String)
    ensures
        r@ == sha256_hex_of(input@),
        r@.len() == 64,
        forall|i: int| 0 <= i < r@.len() ==> is_lower_hex(#[trigger] r@[i]),
{
    sha256_hex(&input)
}

/// Create a random SHA-256-shaped id: the digest of a fresh UUID, so 64
/// lowercase hexadecimal digits.
pub fn random_id() -> (r: String)
    ensures
        r@.len() == 64,
        forall|i: int| 0 <= i < r@.len() ==> is_lower_hex(#[trigger] r@[i]),
        exists|u: Seq<char>| u.len() == 36 && r@ == #[trigger] sha256_hex_of(u),
{
    let seed = uuid();
    let ghost seedv = seed@;
    let r = hash(seed);
    proof {
        assert(r@ == sha256_hex_of(seedv));
    }
    r
}

/// Get the current Unix timestamp in milliseconds.
pub fn unix_epoch_timestamp() -> (r: u128) {
    now_unix_millis()
}

} // verus!
