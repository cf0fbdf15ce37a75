//! Definitions shared by every layer.

use vstd::prelude::*;

verus! {

/// A 32-byte identifier: the result of SHA-3-256 or of the HMAC built on it.
pub type HashId = [u8; 32];

/// A number of bytes in a file.
pub type FileSize = u64;

/// The SHA-3-256 digest of a byte string.
pub uninterp spec fn sha3_256(data: Seq<u8>) -> Seq<u8>;

/// The keyed hash of `data` under `secret`: the digest of the secret followed
/// by the data.
pub open spec fn hmac_sha3(secret: Seq<u8>, data: Seq<u8>) -> Seq<u8> {
    sha3_256(secret + data)
}

/// Calls `tiny_keccak::Keccak`: a fresh SHA-3-256 hasher absorbs `head` and
/// then `tail` through `update`, and `finalize` writes the digest. The hasher
/// sees one byte stream, so the digest is that of `head` followed by `tail`.
#[verifier::external_body]
fn keccak_digest(head: &[u8], tail: &[u8]) -> (digest: HashId)
    ensures
        digest@ == sha3_256(head@ + tail@),
{
    let mut digest = [0u8; 32];
    let mut kc = tiny_keccak::Keccak::new_sha3_256();
    kc.update(head);
    kc.update(tail);
    kc.finalize(&mut digest);
    digest
}

/// The SHA-3-256 digest of `data`.
pub fn sha3(data: &[u8]) -> (digest: HashId)
    ensures
        digest@ == sha3_256(data@),
{
    let empty: [u8; 0] = [];
    assert(data@ + empty@ =~= data@);
    keccak_digest(data, &empty)
}

/// The HMAC of `data` under `secret`.
pub fn hmac(secret: &[u8], data: &[u8]) -> (digest: HashId)
    ensures
        digest@ == hmac_sha3(secret@, data@),
{
    keccak_digest(secret, data)
}

/// Whether two identifiers hold the same bytes. Every byte is looked at,
/// whatever the earlier ones were.
pub fn hash_eq(a: &HashId, b: &HashId) -> (same: bool)
    ensures
        same == (a@ == b@),
{
    let mut same = true;
    let mut i: usize = 0;
    while i < 32
        invariant
            i <= 32,
            same == (forall|j: int| 0 <= j < i ==> a@[j] == b@[j]),
        decreases 32 - i,
    {
        let eq_here = a[i] == b[i];
        same = same && eq_here;
        i += 1;
    }
    assert(same == (a@ =~= b@));
    same
}

/// Appends `src` to `dst`.
pub fn append_bytes(dst: &mut Vec<u8>, src: &[u8])
    ensures
        final(dst)@ == old(dst)@ + src@,
{
    dst.extend_from_slice(src);
    assert(dst@ =~= old(dst)@ + src@);
}

/// The identifier that holds the 32 bytes of `bytes`.
pub fn hash_from_slice(bytes: &[u8]) -> (id: HashId)
    requires
        bytes@.len() == 32,
    ensures
        id@ == bytes@,
{
    let mut id: HashId = [0u8;32];
    let mut i: usize = 0;
    while i < 32
        invariant
            i <= 32,
            bytes@.len() == 32,
            forall|j: int| 0 <= j < i ==> id@[j] == bytes@[j],
        decreases 32 - i,
    {
        id[i] = bytes[i];
        i += 1;
    }
    assert(id@ =~= bytes@);
    id
}

/// The array that holds the 16 bytes of `bytes`.
pub fn block_from_slice(bytes: &[u8]) -> (block: [u8; 16])
    requires
        bytes@.len() == 16,
    ensures
        block@ == bytes@,
{
    let mut block = [0u8;16];
    let mut i: usize = 0;
    while i < 16
        invariant
            i <= 16,
            bytes@.len() == 16,
            forall|j: int| 0 <= j < i ==> block@[j] == bytes@[j],
        decreases 16 - i,
    {
        block[i] = bytes[i];
        i += 1;
    }
    assert(block@ =~= bytes@);
    block
}

/// Whether two strings hold the same characters.
pub fn str_eq(a: &str, b: &str) -> (same: bool)
    ensures
        same == (a@ == b@),
{
    let x: String = a.to_owned();
    let y: String = b.to_owned();
    x == y
}

/// The character strings held by a sequence of strings.
pub open spec fn names_view(names: Seq<String>) -> Seq<Seq<char>> {
    names.map_values(|s: String| s@)
}

/// The first position at which `name` stands in `names`, if it stands there
/// at all.
pub open spec fn position(names: Seq<Seq<char>>, name: Seq<char>) -> Option<int>
    decreases names.len(),
{
    if names.len() == 0 {
        None
    } else if names[0] == name {
        Some(0int)
    } else {
        match position(names.drop_first(), name) {
            Some(i) => Some(i + 1),
            None => None,
        }
    }
}

/// What `position` finds is the first occurrence, and it finds nothing only
/// where there is none.
pub proof fn lemma_position(names: Seq<Seq<char>>, name: Seq<char>)
    ensures
        match position(names, name) {
            Some(i) => 0 <= i < names.len() && names[i] == name && forall|j: int|
                0 <= j < i ==> names[j] != name,
            None => forall|j: int| 0 <= j < names.len() ==> names[j] != name,
        },
    decreases names.len(),
{
    if names.len() > 0 && names[0] != name {
        let rest = names.drop_first();
        lemma_position(rest, name);
        match position(rest, name) {
            Some(i) => {
                assert forall|j: int| 0 <= j < i + 1 implies names[j] != name by {
                    if j > 0 {
                        assert(names[j] == rest[j - 1]);
                    }
                }
            },
            None => {
                assert forall|j: int| 0 <= j < names.len() implies names[j] != name by {
                    if j > 0 {
                        assert(names[j] == rest[j - 1]);
                    }
                }
            },
        }
    }
}

/// The first position at which `name` stands in `names`.
pub fn find_name(names: &Vec<String>, name: &str) -> (found: Option<usize>)
    ensures
        match found {
            Some(i) => position(names_view(names@), name@) == Some(i as int) && i < names.len(),
            None => position(names_view(names@), name@) is None,
        },
{
    let ghost all = names_view(names@);
    let mut i: usize = 0;
    while i < names.len()
        invariant
            i <= names.len(),
            all == names_view(names@),
            forall|j: int| 0 <= j < i ==> all[j] != name@,
        decreases names.len() - i,
    {
        if str_eq(names[i].as_str(), name) {
            proof {
                lemma_position(all, name@);
                assert(all[i as int] == name@);
            }
            return Some(i);
        }
        i += 1;
    }
    proof {
        lemma_position(all, name@);
    }
    None
}

/// The character strings held by a sequence of string slices.
pub open spec fn strs_view(names: Seq<&str>) -> Seq<Seq<char>> {
    names.map_values(|s: &str| s@)
}

/// The first position in `s` whose element satisfies `p`, if any does.
pub open spec fn first_index<T>(s: Seq<T>, p: spec_fn(T) -> bool) -> Option<int>
    decreases s.len(),
{
    if s.len() == 0 {
        None
    } else if p(s[0]) {
        Some(0int)
    } else {
        match first_index(s.drop_first(), p) {
            Some(i) => Some(i + 1),
            None => None,
        }
    }
}

/// What `first_index` finds is the first element that satisfies `p`, and it
/// finds nothing only where none does.
pub proof fn lemma_first_index<T>(s: Seq<T>, p: spec_fn(T) -> bool)
    ensures
        match first_index(s, p) {
            Some(i) => 0 <= i < s.len() && p(s[i]) && forall|j: int| 0 <= j < i ==> !p(s[j]),
            None => forall|j: int| 0 <= j < s.len() ==> !p(s[j]),
        },
    decreases s.len(),
{
    if s.len() > 0 && !p(s[0]) {
        let rest = s.drop_first();
        lemma_first_index(rest, p);
        match first_index(rest, p) {
            Some(i) => {
                assert forall|j: int| 0 <= j < i + 1 implies !p(s[j]) by {
                    if j > 0 {
                        assert(s[j] == rest[j - 1]);
                    }
                }
            },
            None => {
                assert forall|j: int| 0 <= j < s.len() implies !p(s[j]) by {
                    if j > 0 {
                        assert(s[j] == rest[j - 1]);
                    }
                }
            },
        }
    }
}

/// An element that satisfies `p`, with none before it that does, is what
/// `first_index` finds; and it finds nothing where no element satisfies `p`.
pub proof fn lemma_first_index_is<T>(s: Seq<T>, p: spec_fn(T) -> bool, i: int)
    requires
        0 <= i <= s.len(),
        forall|j: int| 0 <= j < i ==> !p(s[j]),
        i < s.len() ==> p(s[i]),
    ensures
        i < s.len() ==> first_index(s, p) == Some(i),
        i == s.len() ==> first_index(s, p) is None,
{
    lemma_first_index(s, p);
}

} // verus!
