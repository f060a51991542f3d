//! Content digests: the SHA-256 of a dataset source, of a set of sources,
//! and of a profile, written as lower-case hex.

use vstd::prelude::*;

use crate::text::chars_of_string;

verus! {

/// The SHA-256 digest of a byte string.
pub uninterp spec fn sha256_digest(data: Seq<u8>) -> Seq<u8>;

/// `sha2::Sha256::digest`: the SHA-256 digest of `data`, 32 bytes long.
#[verifier::external_body]
fn sha256(data: &[u8]) -> (r: Vec<u8>)
    ensures
        r@ == sha256_digest(data@),
        r@.len() == 32,
{
    <sha2::Sha256 as sha2::Digest>::digest(data).to_vec()
}

/// The lower-case hex digit of a value below 16.
pub open spec fn hex_digit(v: int) -> char {
    if v < 10 {
        (('0' as int) + v) as char
    } else {
        (('a' as int) + v - 10) as char
    }
}

/// Each byte as two lower-case hex digits, high half first.
pub open spec fn hex_spec(bytes: Seq<u8>) -> Seq<char>
    decreases bytes.len(),
{
    if bytes.len() == 0 {
        Seq::empty()
    } else {
        hex_spec(bytes.drop_last()).push(hex_digit(bytes.last() as int / 16)).push(hex_digit(bytes.last() as int % 16))
    }
}

/// `hex::encode`: each byte as two lower-case hex digits, high half first.
#[verifier::external_body]
fn hex_encode(bytes: &[u8]) -> (r: String)
    ensures
        r@ == hex_spec(bytes@),
{
    hex::encode(bytes)
}

/// The hex digest of a file's contents.
pub fn file_digest(contents: &[u8]) -> (r: String)
    ensures
        r@ == hex_spec(sha256_digest(contents@)),
{
    let digest = sha256(contents);
    hex_encode(digest.as_slice())
}

/// The byte of an ASCII character.
pub open spec fn ascii_bytes(s: Seq<char>) -> Seq<u8> {
    s.map_values(|c: char| c as u8)
}

/// Hex digits are ASCII.
proof fn lemma_hex_ascii(bytes: Seq<u8>)
    ensures
        forall|i: int| 0 <= i < hex_spec(bytes).len() ==> (#[trigger] hex_spec(bytes)[i] as int) < 128,
        hex_spec(bytes).len() == 2 * bytes.len(),
    decreases bytes.len(),
{
    if bytes.len() > 0 {
        lemma_hex_ascii(bytes.drop_last());
    }
}

/// The text of the entries of a multi-file source, in the given order:
/// each path, a zero byte, its hex digest, a zero byte.
pub open spec fn aggregate_bytes(sources: Seq<(Vec<u8>, Vec<u8>, u64)>) -> Seq<u8>
    decreases sources.len(),
{
    if sources.len() == 0 {
        Seq::empty()
    } else {
        let (path, digest, _) = sources.last();
        aggregate_bytes(sources.drop_last()) + path@ + seq![0u8] + ascii_bytes(hex_spec(digest@)) + seq![0u8]
    }
}

/// The sizes of the sources added up, stopping at `u64::MAX`.
pub open spec fn total_size(sources: Seq<(Vec<u8>, Vec<u8>, u64)>) -> int
    decreases sources.len(),
{
    if sources.len() == 0 {
        0
    } else {
        let t = total_size(sources.drop_last()) + sources.last().2;
        if t > u64::MAX {
            u64::MAX as int
        } else {
            t
        }
    }
}

/// The digest and size of a dataset made of several source files, each
/// given, in path order, as its path bytes, its SHA-256 digest and its
/// size: one source is its own digest; several are hashed together as
/// path, zero, hex digest, zero in turn, and their sizes add up, stopping
/// at `u64::MAX`.
pub fn aggregate_source_digest(sources: &Vec<(Vec<u8>, Vec<u8>, u64)>) -> (r: (String, u64))
    ensures
        sources@.len() == 1 ==> r.0@ == hex_spec(sources@[0].1@) && r.1 == sources@[0].2,
        sources@.len() != 1 ==> r.0@ == hex_spec(sha256_digest(aggregate_bytes(sources@))) && r.1 == total_size(sources@),
{
    if sources.len() == 1 {
        return (hex_encode(sources[0].1.as_slice()), sources[0].2);
    }
    let mut bytes: Vec<u8> = Vec::new();
    let mut size: u64 = 0;
    let mut i: usize = 0;
    while i < sources.len()
        invariant
            i <= sources@.len(),
            bytes@ == aggregate_bytes(sources@.take(i as int)),
            size == total_size(sources@.take(i as int)),
        decreases sources@.len() - i,
    {
        proof {
            assert(sources@.take(i + 1).drop_last() =~= sources@.take(i as int));
        }
        let path = &sources[i].0;
        let mut k: usize = 0;
        let ghost start = bytes@;
        while k < path.len()
            invariant
                k <= path@.len(),
                bytes@ == start + path@.take(k as int),
            decreases path@.len() - k,
        {
            bytes.push(path[k]);
            proof {
                assert(path@.take(k + 1) =~= path@.take(k as int).push(path@[k as int]));
            }
            k += 1;
        }
        bytes.push(0u8);
        let hex = hex_encode(sources[i].1.as_slice());
        let chars = chars_of_string(&hex);
        proof {
            lemma_hex_ascii(sources@[i as int].1@);
        }
        let ghost mid = bytes@;
        let mut c: usize = 0;
        while c < chars.len()
            invariant
                c <= chars@.len(),
                chars@ == hex_spec(sources@[i as int].1@),
                forall|q: int| 0 <= q < chars@.len() ==> (#[trigger] chars@[q] as int) < 128,
                bytes@ == mid + ascii_bytes(chars@.take(c as int)),
            decreases chars@.len() - c,
        {
            let ch = chars[c];
            bytes.push(ch as u8);
            proof {
                assert(ascii_bytes(chars@.take(c + 1)) =~= ascii_bytes(chars@.take(c as int)).push(ch as u8));
            }
            c += 1;
        }
        bytes.push(0u8);
        proof {
            assert(path@.take(path@.len() as int) =~= path@);
            assert(chars@.take(chars@.len() as int) =~= chars@);
            assert(bytes@ =~= aggregate_bytes(sources@.take(i as int)) + path@ + seq![0u8] + ascii_bytes(
                hex_spec(sources@[i as int].1@),
            ) + seq![0u8]);
        }
        size = size.saturating_add(sources[i].2);
        i += 1;
    }
    proof {
        assert(sources@.take(sources@.len() as int) =~= sources@);
    }
    let digest = sha256(bytes.as_slice());
    (hex_encode(digest.as_slice()), size)
}

/// The revision of the cost model, hashed ahead of every profile.
pub open spec fn cost_model_revision() -> Seq<u8> {
    "netweevil-profile-cost-v2"@.map_values(|c: char| c as u8).push(0u8)
}

/// The fingerprint of a profile from its serialized text: the hex SHA-256
/// of the cost-model revision followed by that text.
pub fn profile_fingerprint(serialized: &[u8]) -> (r: String)
    ensures
        r@ == hex_spec(sha256_digest(cost_model_revision() + serialized@)),
{
    let revision = "netweevil-profile-cost-v2";
    let chars = crate::text::chars_of(revision);
    let mut bytes: Vec<u8> = Vec::new();
    proof {
        reveal_strlit("netweevil-profile-cost-v2");
    }
    let mut c: usize = 0;
    while c < chars.len()
        invariant
            c <= chars@.len(),
            chars@ == "netweevil-profile-cost-v2"@,
            bytes@ == chars@.take(c as int).map_values(|ch: char| ch as u8),
        decreases chars@.len() - c,
    {
        proof {
            assert(chars@.take(c + 1).map_values(|ch: char| ch as u8) =~= chars@.take(c as int).map_values(
                |ch: char| ch as u8,
            ).push(chars@[c as int] as u8));
        }
        let ch = chars[c];
        bytes.push(ch as u8);
        c += 1;
    }
    bytes.push(0u8);
    let ghost head = bytes@;
    proof {
        assert(chars@.take(chars@.len() as int) =~= chars@);
        assert(head =~= cost_model_revision());
    }
    let mut k: usize = 0;
    while k < serialized.len()
        invariant
            k <= serialized@.len(),
            bytes@ == head + serialized@.take(k as int),
        decreases serialized@.len() - k,
    {
        bytes.push(serialized[k]);
        proof {
            assert(serialized@.take(k + 1) =~= serialized@.take(k as int).push(serialized@[k as int]));
        }
        k += 1;
    }
    proof {
        assert(serialized@.take(serialized@.len() as int) =~= serialized@);
    }
    let digest = sha256(bytes.as_slice());
    hex_encode(digest.as_slice())
}

} // verus!
