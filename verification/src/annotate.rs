//! Tagging the values of one record.

use vstd::prelude::*;
use crate::error::Error;
use crate::kv::{entries_view, read_entries, reader_entries};
use crate::record::{
    all_fit, all_small, ascending, key_follows, keys_of, lemma_accepted, lemma_accepted_all,
    lemma_record_bytes_step, record_bytes, stops_at, tagged_keys, takes, written, FieldId,
    TaggedEntry,
};
use crate::writer::{tagged_entry, write_tagged_entry};

verus! {

/// The tagged record that a plain record turns into: every field keeps its
/// place and has its value under each tag that is asked for.
pub open spec fn annotated(
    entries: Seq<(FieldId, Seq<u8>)>,
    deletion: bool,
    addition: bool,
) -> Seq<TaggedEntry> {
    Seq::new(
        entries.len(),
        |i: int|
            TaggedEntry {
                key: entries[i].0,
                deletion: if deletion { Some(entries[i].1) } else { None },
                addition: if addition { Some(entries[i].1) } else { None },
            },
    )
}

/// Tagging keeps the fields of a record and their order, and gives each field
/// one value for each tag that is asked for: none at all when neither is.
pub proof fn lemma_annotated_keeps_keys(
    entries: Seq<(FieldId, Seq<u8>)>,
    deletion: bool,
    addition: bool,
)
    ensures
        tagged_keys(annotated(entries, deletion, addition)) == keys_of(entries),
        forall|i: int|
            0 <= i < entries.len() ==> (#[trigger] annotated(entries, deletion, addition)[i]).count()
                == (if deletion { 1nat } else { 0nat }) + (if addition { 1nat } else { 0nat }),
        forall|i: int|
            0 <= i < entries.len() && deletion ==> (#[trigger] annotated(
                entries,
                deletion,
                addition,
            )[i]).deletion == Some(entries[i].1),
        forall|i: int|
            0 <= i < entries.len() && addition ==> (#[trigger] annotated(
                entries,
                deletion,
                addition,
            )[i]).addition == Some(entries[i].1),
{
}

/// Writes behind what `buffer` holds the record that has, for each entry of
/// `entries` in turn, the entry's value under the deletion tag if `deletion`
/// is set and under the addition tag if `addition` is set.
///
/// The keys of `entries` must ascend strictly. An entry whose key does not
/// follow the one before it ends the writing with `Error::UnorderedKeys`, and
/// one whose tagged values are too long for a record with `Error::Io`; the
/// entries before it stay written.
pub fn annotate_entries(
    entries: &[(FieldId, &[u8])],
    deletion: bool,
    addition: bool,
    buffer: &mut Vec<u8>,
) -> (res: Result<(), Error>)
    ensures
        written(
            annotated(entries_view(entries@), deletion, addition),
            old(buffer)@,
            final(buffer)@,
            res,
        ),
        res.is_ok() <==> ascending(keys_of(entries_view(entries@))) && all_fit(
            annotated(entries_view(entries@), deletion, addition),
        ),
        ascending(keys_of(entries_view(entries@))) && all_small(
            annotated(entries_view(entries@), deletion, addition),
        ) ==> res.is_ok(),
{
    let ghost record = annotated(entries_view(entries@), deletion, addition);
    proof {
        assert(record.take(0) =~= Seq::empty());
    }
    let mut scratch: Vec<u8> = Vec::new();
    let mut last_key: Option<FieldId> = None;
    let mut i: usize = 0;
    while i < entries.len()
        invariant
            0 <= i <= entries.len(),
            record == annotated(entries_view(entries@), deletion, addition),
            record.len() == entries.len(),
            forall|k: int| 0 <= k < i ==> takes(record, k),
            buffer@ == old(buffer)@ + record_bytes(record.take(i as int)),
            last_key == (if i == 0 { None } else { Some(record[i - 1].key) }),
        decreases entries.len() - i,
    {
        let (key, value) = entries[i];
        let del = if deletion { Some(value) } else { None };
        let add = if addition { Some(value) } else { None };
        assert(tagged_entry(key, del, add) == record[i as int]);
        match write_tagged_entry(buffer, &mut scratch, last_key, key, del, add) {
            Ok(()) => {},
            Err(e) => {
                proof {
                    assert(stops_at(record, i as int));
                    lemma_accepted(record, i as int);
                    lemma_accepted_all(record);
                    lemma_annotated_keeps_keys(entries_view(entries@), deletion, addition);
                    if !key_follows(record, i as int) {
                        let keys = tagged_keys(record);
                        assert(keys[i - 1] >= keys[i as int]);
                    }
                }
                return Err(e);
            },
        }
        proof {
            lemma_record_bytes_step(record, i as int);
        }
        last_key = Some(key);
        i += 1;
    }
    proof {
        assert(record.take(i as int) =~= record);
        assert(stops_at(record, i as int));
        lemma_accepted(record, i as int);
        lemma_accepted_all(record);
        lemma_annotated_keeps_keys(entries_view(entries@), deletion, addition);
    }
    Ok(())
}

/// Writes behind what `buffer` holds the record that has, for each field of
/// the record under `reader`, the field's value under the deletion tag if
/// `deletion` is set and under the addition tag if `addition` is set. With
/// neither set every field is kept with an empty nested record.
///
/// The record under `reader` must be strictly ascending by key. An entry
/// whose key does not follow the one before it ends the writing with
/// `Error::UnorderedKeys`, and one whose tagged values are too long for a
/// record with `Error::Io`; the entries before it stay written.
pub fn into_del_add_obkv(
    reader: obkv::KvReader<FieldId>,
    deletion: bool,
    addition: bool,
    buffer: &mut Vec<u8>,
) -> (res: Result<(), Error>)
    ensures
        written(
            annotated(reader_entries(reader), deletion, addition),
            old(buffer)@,
            final(buffer)@,
            res,
        ),
        res.is_ok() <==> ascending(keys_of(reader_entries(reader))) && all_fit(
            annotated(reader_entries(reader), deletion, addition),
        ),
        ascending(keys_of(reader_entries(reader))) && all_small(
            annotated(reader_entries(reader), deletion, addition),
        ) ==> res.is_ok(),
{
    let entries = read_entries(&reader);
    annotate_entries(entries.as_slice(), deletion, addition, buffer)
}

} // verus!
