//! Declarations of the outside types the library holds, and the trusted wrappers of the
//! outside functions it calls.
use vstd::prelude::*;
use vstd::utf8::{valid_utf8, decode_utf8};
use std::hash::Hash;
use std::hash::Hasher;
use ahash::AHashMap;
use ahash::AHasher;

verus! {

#[verifier::external_type_specification]
#[verifier::external_body]
#[verifier::reject_recursive_types(K)]
#[verifier::reject_recursive_types(V)]
#[verifier::reject_recursive_types(S)]
pub struct ExAHashMap<K, V, S>(AHashMap<K, V, S>);

#[verifier::external_type_specification]
#[verifier::external_body]
pub struct ExAHasher(AHasher);

#[verifier::external_type_specification]
#[verifier::external_body]
pub struct ExRandomState(ahash::RandomState);

/// What a key-to-token map holds: each key by its characters, with its token.
pub uninterp spec fn key_index(m: AHashMap<String, u16>) -> Map<Seq<char>, u16>;

/// `AHashMap::with_capacity`: a new map, which holds nothing.
#[verifier::external_body]
pub(crate) fn key_index_new() -> (m: AHashMap<String, u16>)
    ensures
        key_index(m) == (Map::<Seq<char>, u16>::empty()),
{
    AHashMap::with_capacity(64)
}

/// `AHashMap::get`: the token stored under a key equal to `k`, if there is one.
#[verifier::external_body]
pub(crate) fn key_index_get(m: &AHashMap<String, u16>, k: &str) -> (r: Option<u16>)
    ensures
        r == (if key_index(*m).dom().contains(k@) {
            Some(key_index(*m)[k@])
        } else {
            None::<u16>
        }),
{
    m.get(k).copied()
}

/// `AHashMap::insert`: afterwards `k` maps to `t`; every other key keeps its token.
#[verifier::external_body]
pub(crate) fn key_index_insert(m: &mut AHashMap<String, u16>, k: String, t: u16)
    ensures
        key_index(*final(m)) == key_index(*old(m)).insert(k@, t),
{
    m.insert(k, t);
}

/// `HashMap::contains_key` (through `AHashMap`'s `Deref`): whether some key equals `k`.
#[verifier::external_body]
pub(crate) fn key_index_contains(m: &AHashMap<String, u16>, k: &str) -> (r: bool)
    ensures
        r == key_index(*m).dom().contains(k@),
{
    m.contains_key(k)
}

/// `HashMap::clear` (through `AHashMap`'s `DerefMut`): afterwards the map holds nothing.
#[verifier::external_body]
pub(crate) fn key_index_clear(m: &mut AHashMap<String, u16>)
    ensures
        key_index(*final(m)) == (Map::<Seq<char>, u16>::empty()),
{
    m.clear();
}

/// `AHasher::default`. Its keys are drawn once per process, so nothing is stated of the
/// hashes it will give.
#[verifier::external_body]
pub(crate) fn hasher_new() -> AHasher {
    AHasher::default()
}

/// `<u16 as Hash>::hash` into an `AHasher`; the hasher's new state is not stated.
#[verifier::external_body]
pub(crate) fn hasher_write_token(h: &mut AHasher, t: u16) {
    t.hash(h);
}

/// `<String as Hash>::hash` into an `AHasher`; the hasher's new state is not stated.
#[verifier::external_body]
pub(crate) fn hasher_write_key(h: &mut AHasher, k: &String) {
    k.hash(h);
}

/// `Hasher::finish` of an `AHasher`; the value depends on per-process keys and is not stated.
#[verifier::external_body]
pub(crate) fn hasher_finish(h: &AHasher) -> u64 {
    h.finish()
}

/// `std::str::from_utf8` on `input[start..end]`: `Ok` exactly when those bytes are valid
/// UTF-8, and then the string's characters are the ones they encode. On `Err` it hands
/// back the text of the `Utf8Error` (its `Display`), of which nothing is stated.
#[verifier::external_body]
pub(crate) fn utf8_str<'a>(input: &'a [u8], start: usize, end: usize) -> (r: Result<&'a str, String>)
    requires
        start <= end <= input@.len(),
    ensures
        r is Ok <==> valid_utf8(input@.subrange(start as int, end as int)),
        r matches Ok(s) ==> s@ == decode_utf8(input@.subrange(start as int, end as int)),
{
    match std::str::from_utf8(&input[start..end]) {
        Ok(s) => Ok(s),
        Err(e) => Err(e.to_string()),
    }
}

/// `AHashMap::clone` (derived: it clones the inner `HashMap`): a map with the same entries.
#[verifier::external_body]
pub(crate) fn key_index_clone(m: &AHashMap<String, u16>) -> (r: AHashMap<String, u16>)
    ensures
        key_index(r) == key_index(*m),
{
    m.clone()
}

/// `String::leak`: the same characters, borrowed for the rest of the program (the memory
/// is never freed).
#[verifier::external_body]
pub(crate) fn leak_string(s: String) -> (r: &'static str)
    ensures
        r@ == s@,
{
    s.leak()
}

#[verifier::external_type_specification]
#[verifier::external_body]
pub struct ExIoError(std::io::Error);

/// The bytes zstd compression at `level` makes of `input`.
pub uninterp spec fn zstd_compressed(input: Seq<u8>, level: i32) -> Seq<u8>;

/// The data zstd frames hold: none when the bytes are not zstd frame data.
pub uninterp spec fn zstd_decompressed(input: Seq<u8>) -> Option<Seq<u8>>;

/// `zstd::encode_all` on a byte slice: on success, the compressed bytes, zstd frame data
/// that decompresses to the input. Whether it succeeds is not stated.
#[verifier::external_body]
pub(crate) fn zstd_encode_all(input: &[u8], level: i32) -> (r: Result<Vec<u8>, std::io::Error>)
    ensures
        r matches Ok(v) ==> v@ == zstd_compressed(input@, level) && zstd_decompressed(v@) == Some(input@),
{
    zstd::encode_all(input, level)
}

/// `zstd::decode_all` on a byte slice: on success, the data the input's frames hold.
/// Whether it succeeds on zstd frame data is not stated.
#[verifier::external_body]
pub(crate) fn zstd_decode_all(input: &[u8]) -> (r: Result<Vec<u8>, std::io::Error>)
    ensures
        r matches Ok(v) ==> zstd_decompressed(input@) == Some(v@),
{
    zstd::decode_all(input)
}

/// The text of an I/O error (its `Display`); nothing is stated of it.
#[verifier::external_body]
pub(crate) fn io_error_text(e: &std::io::Error) -> String {
    e.to_string()
}

} // verus!
