//! Stable root identifiers: a root's absolute path is hashed into a short,
//! stable name that keys its stored index and names its snapshot file, so
//! that the same path always maps to the same storage location and, relying
//! on the hash's collision resistance, different paths do not collide.

use vstd::prelude::*;
use vstd::string::StringSliceAdditionalSpecFns;
use vstd::utf8::encode_utf8;

verus! {

/// The lower-case hexadecimal MD5 digest of a byte string: a function of the
/// bytes alone; what it is on given bytes only the hash computes.
pub uninterp spec fn md5_hex_of(bytes: Seq<u8>) -> Seq<char>;

/// Relies on md5::compute: the 16-byte MD5 digest of the input, a function
/// of the input bytes alone, printed by the crate's LowerHex impl as two
/// hexadecimal digits per byte, 32 characters in all.
#[verifier::external_body]
fn md5_hex(bytes: &[u8]) -> (r: String)
    ensures
        r@ == md5_hex_of(bytes@),
        r@.len() == 32,
{
    format!("{:x}", md5::compute(bytes))
}

/// The identifier of a root path: the hex MD5 digest of its bytes.
pub open spec fn root_id_of(path: Seq<char>) -> Seq<char> {
    md5_hex_of(encode_utf8(path))
}

/// The name of the snapshot file that stores a root's index.
pub open spec fn snapshot_name_of(path: Seq<char>) -> Seq<char> {
    "index_"@ + root_id_of(path) + ".json"@
}

/// The stable identifier of the root at `path`.
pub fn root_identifier(path: &str) -> (r: String)
    ensures
        r@ == root_id_of(path@),
        r@.len() == 32,
{
    let bytes = path.as_bytes();
    proof {
        assert(bytes@ == encode_utf8(path@));
    }
    md5_hex(bytes)
}

/// The file name under which the index of the root at `path` is snapshotted.
pub fn snapshot_file_name(path: &str) -> (r: String)
    ensures
        r@ == snapshot_name_of(path@),
{
    let id = root_identifier(path);
    let mut s = String::from_str("index_");
    s.append(id.as_str());
    s.append(".json");
    s
}

} // verus!
