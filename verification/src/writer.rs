//! Writing one entry of a tagged record.

use vstd::prelude::*;
use crate::error::Error;
use crate::kv::{insert_u16, insert_u8, MAX_PREFIX_LEN};
use crate::record::{tagged_bytes, FieldId, TaggedEntry, MAX_NESTED_OVERHEAD, MAX_VALUE_LEN};
use crate::tag::DelAdd;

verus! {

/// The model of a value that may be absent.
pub open spec fn value_view(value: Option<&[u8]>) -> Option<Seq<u8>> {
    match value {
        Some(v) => Some(v@),
        None => None,
    }
}

/// The entry that a key and the values of its two sides make up.
pub open spec fn tagged_entry(
    key: FieldId,
    deletion: Option<&[u8]>,
    addition: Option<&[u8]>,
) -> TaggedEntry {
    TaggedEntry { key, deletion: value_view(deletion), addition: value_view(addition) }
}

/// Whether `key` may be written after `last`, the key written before it.
pub open spec fn may_follow(last: Option<FieldId>, key: FieldId) -> bool {
    match last {
        Some(l) => l < key,
        None => true,
    }
}

/// What of the nested record of `entry` is put together before the entry is
/// written or refused: the values in turn, up to the first that is too long
/// to be a value.
pub open spec fn nested_built(entry: TaggedEntry) -> Seq<u8> {
    if entry.deletion.is_some() && entry.deletion.unwrap().len() > MAX_VALUE_LEN {
        Seq::empty()
    } else if entry.addition.is_some() && entry.addition.unwrap().len() > MAX_VALUE_LEN {
        tagged_bytes(DelAdd::Deletion, entry.deletion)
    } else {
        entry.nested()
    }
}

/// Appends `value` under `tag` to the nested record in `nested`.
fn insert_tagged(nested: &mut Vec<u8>, tag: DelAdd, value: &[u8]) -> (res: Result<(), Error>)
    ensures
        match res {
            Ok(()) => value@.len() <= MAX_VALUE_LEN && final(nested)@ == old(nested)@
                + tagged_bytes(tag, Some(value@)),
            Err(Error::Io(_)) => value@.len() > MAX_VALUE_LEN && final(nested)@ == old(nested)@,
            Err(_) => false,
        },
        res.is_ok() ==> tagged_bytes(tag, Some(value@)).len() <= 1 + MAX_PREFIX_LEN + value@.len(),
{
    let byte: u8 = tag.to_be_bytes()[0];
    match insert_u8(nested, byte, value) {
        Ok(()) => Ok(()),
        Err(e) => Err(Error::Io(e)),
    }
}

/// Writes the entry of one field behind what `buffer` holds: the key, then the
/// nested record with the deletion under its tag, if there is one, before the
/// addition, if there is one.
///
/// The entry is refused, and `buffer` left as it was, when `key` is not above
/// `last_key`, or when the nested record is too long to be a value. `scratch`
/// is working space that is cleared and then holds the nested record as far
/// as it was put together.
pub fn write_tagged_entry(
    buffer: &mut Vec<u8>,
    scratch: &mut Vec<u8>,
    last_key: Option<FieldId>,
    key: FieldId,
    deletion: Option<&[u8]>,
    addition: Option<&[u8]>,
) -> (res: Result<(), Error>)
    ensures
        match res {
            Ok(()) => {
                &&& may_follow(last_key, key)
                &&& tagged_entry(key, deletion, addition).fits()
                &&& final(buffer)@ == old(buffer)@ + tagged_entry(key, deletion, addition).bytes()
            },
            Err(Error::UnorderedKeys) => !may_follow(last_key, key) && final(buffer)@ == old(
                buffer,
            )@,
            Err(Error::Io(_)) => {
                &&& may_follow(last_key, key)
                &&& !tagged_entry(key, deletion, addition).fits()
                &&& final(buffer)@ == old(buffer)@
            },
            Err(Error::UnknownTag(_)) => false,
        },
        may_follow(last_key, key) && tagged_entry(key, deletion, addition).payload_len()
            + MAX_NESTED_OVERHEAD <= MAX_VALUE_LEN ==> res.is_ok(),
        final(scratch)@ == if may_follow(last_key, key) {
            nested_built(tagged_entry(key, deletion, addition))
        } else {
            old(scratch)@
        },
{
    let ghost entry = tagged_entry(key, deletion, addition);
    if let Some(last) = last_key {
        if key <= last {
            return Err(Error::UnorderedKeys);
        }
    }
    scratch.clear();
    if let Some(value) = deletion {
        match insert_tagged(scratch, DelAdd::Deletion, value) {
            Ok(()) => {},
            Err(e) => {
                return Err(e);
            },
        }
    }
    if let Some(value) = addition {
        match insert_tagged(scratch, DelAdd::Addition, value) {
            Ok(()) => {},
            Err(e) => {
                return Err(e);
            },
        }
    }
    match insert_u16(buffer, key, scratch.as_slice()) {
        Ok(()) => Ok(()),
        Err(e) => Err(Error::Io(e)),
    }
}

} // verus!
