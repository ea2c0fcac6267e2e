use vstd::prelude::*;

verus! {

/// The 64 lowercase hexadecimal digits of the SHA-256 digest of the UTF-8
/// encoding of `text`.
pub uninterp spec fn sha256_hex(text: Seq<char>) -> Seq<char>;

/// Calls `sha256::digest` on a string slice. Its source hashes the UTF-8 bytes
/// of the slice with SHA-256 and returns `hex::encode` of the 32-byte digest.
/// The contract names the result `sha256_hex(text@)` and states that it has 64
/// characters; nothing else about SHA-256 is claimed.
#[verifier::external_body]
pub(crate) fn digest(text: &str) -> (res: String)
    ensures
        res@ == sha256_hex(text@),
        res@.len() == 64,
{
    sha256::digest(text)
}

/// The label of an inner node whose children are labelled `left` and `right`:
/// the digest of the two labels written one after the other.
pub open spec fn hash_pair(left: Seq<char>, right: Seq<char>) -> Seq<char> {
    sha256_hex(left + right)
}

/// Hashes the concatenation of `left` and `right`.
pub(crate) fn hash_concat(left: &str, right: &str) -> (res: String)
    ensures
        res@ == hash_pair(left@, right@),
{
    let mut joined = left.to_owned();
    joined.append(right);
    digest(joined.as_str())
}

} // verus!
