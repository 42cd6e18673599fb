//! The mathematical model of records and of their stored bytes.
//!
//! A plain record is a sequence of entries, each a field key and a value. A
//! tagged record holds for each field key up to two values, one per tag. The
//! functions here say which bytes such a record is stored as and how much of
//! it a record writer takes before it refuses an entry.

use vstd::prelude::*;
use crate::error::Error;
use crate::kv::{key_bytes, length_prefix};
use crate::tag::DelAdd;

verus! {

/// The key of a field within a document.
pub type FieldId = u16;

/// The largest value that a record can hold, in bytes.
pub const MAX_VALUE_LEN: usize = 0xffff_ffff;

/// The most that tags and length prefixes add to the values of one field.
pub const MAX_NESTED_OVERHEAD: usize = 12;

/// The keys of a plain record, in stored order.
pub open spec fn keys_of(entries: Seq<(FieldId, Seq<u8>)>) -> Seq<FieldId> {
    Seq::new(entries.len(), |i: int| entries[i].0)
}

/// Whether keys are strictly ascending, which leaves no key twice.
pub open spec fn ascending(keys: Seq<FieldId>) -> bool {
    forall|i: int, j: int| 0 <= i < j < keys.len() ==> keys[i] < keys[j]
}

/// What a tagged record holds for one field: the value that is deleted, the
/// value that is added, or both.
pub struct TaggedEntry {
    pub key: FieldId,
    pub deletion: Option<Seq<u8>>,
    pub addition: Option<Seq<u8>>,
}

/// The stored bytes of one value under its tag; nothing for an absent value.
pub open spec fn tagged_bytes(tag: DelAdd, value: Option<Seq<u8>>) -> Seq<u8> {
    match value {
        Some(v) => seq![tag.byte()] + length_prefix(v.len()) + v,
        None => Seq::empty(),
    }
}

impl TaggedEntry {
    /// The number of values under this field: 0, 1 or 2.
    pub open spec fn count(self) -> nat {
        (if self.deletion.is_some() { 1nat } else { 0nat })
            + (if self.addition.is_some() { 1nat } else { 0nat })
    }

    /// The bytes of the values alone, without tags and prefixes.
    pub open spec fn payload_len(self) -> nat {
        (match self.deletion { Some(v) => v.len(), None => 0 })
            + (match self.addition { Some(v) => v.len(), None => 0 })
    }

    /// The nested record of this field: the deletion, then the addition.
    pub open spec fn nested(self) -> Seq<u8> {
        tagged_bytes(DelAdd::Deletion, self.deletion) + tagged_bytes(DelAdd::Addition, self.addition)
    }

    /// Whether the nested record is short enough to be the value of an entry.
    pub open spec fn fits(self) -> bool {
        self.nested().len() <= MAX_VALUE_LEN
    }

    /// The stored bytes of this entry: the key, the length prefix of the nested
    /// record, and the nested record.
    pub open spec fn bytes(self) -> Seq<u8> {
        key_bytes(self.key) + length_prefix(self.nested().len()) + self.nested()
    }
}

/// The keys of a tagged record, in stored order.
pub open spec fn tagged_keys(record: Seq<TaggedEntry>) -> Seq<FieldId> {
    Seq::new(record.len(), |i: int| record[i].key)
}

/// The stored bytes of a tagged record: those of its entries, one after
/// another.
pub open spec fn record_bytes(record: Seq<TaggedEntry>) -> Seq<u8>
    decreases record.len(),
{
    if record.len() == 0 {
        Seq::empty()
    } else {
        record_bytes(record.drop_last()) + record.last().bytes()
    }
}

/// Whether the key of entry `i` is above the key of the entry before it.
pub open spec fn key_follows(record: Seq<TaggedEntry>, i: int) -> bool {
    i == 0 || record[i - 1].key < record[i].key
}

/// Whether a writer that has taken the entries before `i` takes entry `i` too.
pub open spec fn takes(record: Seq<TaggedEntry>, i: int) -> bool {
    key_follows(record, i) && record[i].fits()
}

/// Whether `n` is the number of entries that a writer takes of `record`: all
/// of them, or those before the first that it refuses.
pub open spec fn stops_at(record: Seq<TaggedEntry>, n: int) -> bool {
    &&& 0 <= n <= record.len()
    &&& forall|i: int| 0 <= i < n ==> takes(record, i)
    &&& n < record.len() ==> !takes(record, n)
}

/// The number of entries that a writer takes of `record`.
pub open spec fn accepted(record: Seq<TaggedEntry>) -> int {
    choose|n: int| stops_at(record, n)
}

/// Whether no entry of `record` comes near the largest value that a record
/// can hold: each leaves room for its tags and length prefixes.
pub open spec fn all_small(record: Seq<TaggedEntry>) -> bool {
    forall|i: int|
        0 <= i < record.len() ==> (#[trigger] record[i]).payload_len() + MAX_NESTED_OVERHEAD
            <= MAX_VALUE_LEN
}

/// Whether every entry of `record` fits.
pub open spec fn all_fit(record: Seq<TaggedEntry>) -> bool {
    forall|i: int| 0 <= i < record.len() ==> (#[trigger] record[i]).fits()
}

/// What writing `record` behind the bytes `before` leaves in the buffer and
/// returns: the entries that the writer takes are appended, and the result
/// tells whether that was all of them, or else why the next one was refused.
pub open spec fn written(
    record: Seq<TaggedEntry>,
    before: Seq<u8>,
    after: Seq<u8>,
    res: Result<(), Error>,
) -> bool {
    let n = accepted(record);
    &&& after == before + record_bytes(record.take(n))
    &&& match res {
        Ok(()) => n == record.len(),
        Err(Error::UnorderedKeys) => n < record.len() && !key_follows(record, n),
        Err(Error::Io(_)) => n < record.len() && key_follows(record, n) && !record[n].fits(),
        Err(Error::UnknownTag(_)) => false,
    }
}

/// There is one number of accepted entries, so whoever finds where the writer
/// stops has found `accepted`.
pub proof fn lemma_accepted(record: Seq<TaggedEntry>, n: int)
    requires
        stops_at(record, n),
    ensures
        accepted(record) == n,
{
    let m = accepted(record);
    assert(stops_at(record, m));
    if m < n {
        assert(takes(record, m));
    } else if n < m {
        assert(takes(record, n));
    }
}

/// A writer takes a whole record exactly when its keys ascend strictly and
/// every entry fits.
pub proof fn lemma_accepted_all(record: Seq<TaggedEntry>)
    ensures
        stops_at(record, accepted(record)),
        accepted(record) == record.len() <==> ascending(tagged_keys(record)) && all_fit(record),
{
    lemma_stops_somewhere(record, 0);
    let n = accepted(record);
    let keys = tagged_keys(record);
    if n == record.len() {
        assert forall|k: int| 0 <= k < n implies key_follows(record, k) by {
            assert(takes(record, k));
        }
        assert forall|i: int, j: int| 0 <= i < j < keys.len() implies keys[i] < keys[j] by {
            lemma_steps_ascend(record, i, j);
        }
        assert forall|i: int| 0 <= i < record.len() implies (#[trigger] record[i]).fits() by {
            assert(takes(record, i));
        }
    } else if n > 0 {
        assert(keys[n - 1] == record[n - 1].key && keys[n] == record[n].key);
    }
}

/// One more entry makes a record one entry's bytes longer.
pub proof fn lemma_record_bytes_step(record: Seq<TaggedEntry>, n: int)
    requires
        0 <= n < record.len(),
    ensures
        record_bytes(record.take(n + 1)) == record_bytes(record.take(n)) + record[n].bytes(),
{
    assert(record.take(n + 1).drop_last() =~= record.take(n));
}

/// From any point up to which the writer took everything, it stops somewhere.
proof fn lemma_stops_somewhere(record: Seq<TaggedEntry>, from: int)
    requires
        0 <= from <= record.len(),
        forall|i: int| 0 <= i < from ==> takes(record, i),
    ensures
        exists|n: int| stops_at(record, n),
    decreases record.len() - from,
{
    if from < record.len() && takes(record, from) {
        lemma_stops_somewhere(record, from + 1);
    } else {
        assert(stops_at(record, from));
    }
}

/// Keys that each follow the one before them ascend over any distance.
proof fn lemma_steps_ascend(record: Seq<TaggedEntry>, i: int, j: int)
    requires
        0 <= i < j < record.len(),
        forall|k: int| 0 <= k <= j ==> key_follows(record, k),
    ensures
        record[i].key < record[j].key,
    decreases j - i,
{
    assert(key_follows(record, j));
    if i + 1 < j {
        lemma_steps_ascend(record, i, j - 1);
    }
}

} // verus!
