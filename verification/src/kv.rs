//! The ordered key-value store that holds the records: what this library
//! takes on trust from the `obkv` crate.
//!
//! A stored record is a run of entries, each a key in big-endian bytes, the
//! length of the value as a short prefix, and the value. A record has no
//! header and no end mark, so a buffer holds a whole record after each entry
//! that is written to it. The contracts of the functions in this file are not
//! proved: they restate what `obkv` does.

use vstd::prelude::*;

verus! {

/// `obkv::KvReader`, a reader over the stored bytes of a record. What it
/// holds is known only through `reader_entries`.
#[verifier::external_type_specification]
#[verifier::external_body]
#[verifier::reject_recursive_types(K)]
pub struct ExKvReader<'a, K>(obkv::KvReader<'a, K>);

/// The entries that iterating over a reader with `u16` keys yields, in the
/// order in which they come: each a key and the bytes of its value.
pub uninterp spec fn reader_entries(reader: obkv::KvReader<u16>) -> Seq<(u16, Seq<u8>)>;

/// The bytes that `obkv::KvWriter::insert` puts between a key and a value of
/// `len` bytes to record the value's length.
pub uninterp spec fn length_prefix(len: nat) -> Seq<u8>;

/// The longest that a length prefix gets.
pub const MAX_PREFIX_LEN: usize = 5;

/// The entries of a record as plain values: each key with the view of its
/// value.
pub open spec fn entries_view(entries: Seq<(u16, &[u8])>) -> Seq<(u16, Seq<u8>)> {
    Seq::new(entries.len(), |i: int| (entries[i].0, entries[i].1@))
}

/// The two bytes of a `u16` key, most significant first.
pub open spec fn key_bytes(key: u16) -> Seq<u8> {
    seq![(key / 256) as u8, (key % 256) as u8]
}

/// `obkv::KvReader::iter`, run to its end: the entries of the record in stored
/// order, each value a slice of the reader's bytes. The iterator stops at the
/// first entry that the bytes do not hold in full, so this returns for every
/// reader.
#[verifier::external_body]
pub(crate) fn read_entries<'a>(reader: &obkv::KvReader<'a, u16>) -> (entries: Vec<(u16, &'a [u8])>)
    ensures
        entries_view(entries@) == reader_entries(*reader),
{
    reader.iter().collect()
}

/// `obkv::KvWriter::insert` with a `u16` key, on a writer newly made over
/// `buffer`. The writer refuses a value longer than `u32::MAX` bytes and then
/// writes nothing; otherwise it appends the key in big-endian bytes, the
/// length prefix of at most five bytes, and the value. A new writer has no
/// last key to hold `key` against, and writing into a `Vec<u8>` appends to it
/// and does not fail, so the length is the only ground for a refusal.
#[verifier::external_body]
pub(crate) fn insert_u16(buffer: &mut Vec<u8>, key: u16, value: &[u8]) -> (res: Result<
    (),
    std::io::Error,
>)
    ensures
        res.is_ok() <==> value@.len() <= u32::MAX,
        res.is_ok() ==> final(buffer)@ == old(buffer)@ + key_bytes(key) + length_prefix(
            value@.len(),
        ) + value@,
        res.is_ok() ==> length_prefix(value@.len()).len() <= MAX_PREFIX_LEN,
        res.is_err() ==> final(buffer)@ == old(buffer)@,
{
    obkv::KvWriter::new(buffer).insert(key, value)
}

/// `obkv::KvWriter::insert` with a `u8` key, on a writer newly made over
/// `buffer`. The writer refuses a value longer than `u32::MAX` bytes and then
/// writes nothing; otherwise it appends the key byte, the length prefix of at
/// most five bytes, and the value. As with `u16` keys, the length is the only
/// ground for a refusal.
#[verifier::external_body]
pub(crate) fn insert_u8(buffer: &mut Vec<u8>, key: u8, value: &[u8]) -> (res: Result<
    (),
    std::io::Error,
>)
    ensures
        res.is_ok() <==> value@.len() <= u32::MAX,
        res.is_ok() ==> final(buffer)@ == old(buffer)@ + seq![key] + length_prefix(value@.len())
            + value@,
        res.is_ok() ==> length_prefix(value@.len()).len() <= MAX_PREFIX_LEN,
        res.is_err() ==> final(buffer)@ == old(buffer)@,
{
    obkv::KvWriter::new(buffer).insert(key, value)
}

} // verus!
