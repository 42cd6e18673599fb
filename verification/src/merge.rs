//! Merging the old and the new state of a document into one tagged record.

use vstd::prelude::*;
use crate::error::Error;
use crate::kv::{entries_view, read_entries, reader_entries};
use crate::record::{
    all_fit, all_small, ascending, key_follows, keys_of, lemma_accepted, lemma_accepted_all,
    lemma_record_bytes_step, record_bytes, stops_at, tagged_keys, takes, written, FieldId,
    TaggedEntry,
};
use crate::writer::{tagged_entry, write_tagged_entry};

verus! {

/// Whether the walk over `d` from `i` and `a` from `j` next takes the entry of
/// `d`: it has the smaller key, or `a` is used up. On equal keys it takes
/// both.
pub open spec fn takes_left(
    d: Seq<(FieldId, Seq<u8>)>,
    a: Seq<(FieldId, Seq<u8>)>,
    i: int,
    j: int,
) -> bool {
    i < d.len() && (j >= a.len() || d[i].0 <= a[j].0)
}

/// Whether the walk over `d` from `i` and `a` from `j` next takes the entry of
/// `a`.
pub open spec fn takes_right(
    d: Seq<(FieldId, Seq<u8>)>,
    a: Seq<(FieldId, Seq<u8>)>,
    i: int,
    j: int,
) -> bool {
    j < a.len() && (i >= d.len() || a[j].0 <= d[i].0)
}

/// The entry that the walk emits next: the smaller of the two keys at hand,
/// with the value of `d` as its deletion and the value of `a` as its
/// addition, as far as they have that key.
pub open spec fn next_entry(
    d: Seq<(FieldId, Seq<u8>)>,
    a: Seq<(FieldId, Seq<u8>)>,
    i: int,
    j: int,
) -> TaggedEntry {
    TaggedEntry {
        key: if takes_left(d, a, i, j) { d[i].0 } else { a[j].0 },
        deletion: if takes_left(d, a, i, j) { Some(d[i].1) } else { None },
        addition: if takes_right(d, a, i, j) { Some(a[j].1) } else { None },
    }
}

/// What the walk emits from `i` in `d` and `j` in `a` on.
pub open spec fn merged_from(
    d: Seq<(FieldId, Seq<u8>)>,
    a: Seq<(FieldId, Seq<u8>)>,
    i: int,
    j: int,
) -> Seq<TaggedEntry>
    decreases d.len() - i + a.len() - j,
{
    if i < 0 || j < 0 || i > d.len() || j > a.len() || (i == d.len() && j == a.len()) {
        Seq::empty()
    } else {
        seq![next_entry(d, a, i, j)] + merged_from(
            d,
            a,
            if takes_left(d, a, i, j) { i + 1 } else { i },
            if takes_right(d, a, i, j) { j + 1 } else { j },
        )
    }
}

/// The tagged record that the deletions `d` and the additions `a` merge into.
pub open spec fn merged(d: Seq<(FieldId, Seq<u8>)>, a: Seq<(FieldId, Seq<u8>)>) -> Seq<
    TaggedEntry,
> {
    merged_from(d, a, 0, 0)
}

/// The value that a plain record holds under `key`, if it holds one.
pub open spec fn value_of(entries: Seq<(FieldId, Seq<u8>)>, key: FieldId) -> Option<Seq<u8>> {
    if keys_of(entries).contains(key) {
        Some(entries[keys_of(entries).index_of(key)].1)
    } else {
        None
    }
}

/// Whether `record` is the union of the plain records `d` and `a`: its keys
/// ascend strictly, they are the keys of `d` together with those of `a`, one
/// entry for each, and under each key stand the value that `d` holds there as
/// deletion and the value that `a` holds there as addition.
pub open spec fn is_union_of(
    record: Seq<TaggedEntry>,
    d: Seq<(FieldId, Seq<u8>)>,
    a: Seq<(FieldId, Seq<u8>)>,
) -> bool {
    &&& ascending(tagged_keys(record))
    &&& tagged_keys(record).to_set() == keys_of(d).to_set().union(keys_of(a).to_set())
    &&& record.len() == keys_of(d).to_set().union(keys_of(a).to_set()).len()
    &&& forall|x: int|
        0 <= x < record.len() ==> (#[trigger] record[x]).deletion == value_of(d, record[x].key)
            && record[x].addition == value_of(a, record[x].key)
}

/// Whether `entries` is strictly ascending by key from index `from` on.
pub open spec fn ascending_from(entries: Seq<(FieldId, Seq<u8>)>, from: int) -> bool {
    forall|p: int, q: int| from <= p < q < entries.len() ==> entries[p].0 < entries[q].0
}

/// Whether the tagged entry `e` carries the plain entry `entry` as its
/// deletion.
pub open spec fn is_deletion_of(e: TaggedEntry, entry: (FieldId, Seq<u8>)) -> bool {
    e.key == entry.0 && e.deletion == Some(entry.1)
}

/// Whether the tagged entry `e` carries the plain entry `entry` as its
/// addition.
pub open spec fn is_addition_of(e: TaggedEntry, entry: (FieldId, Seq<u8>)) -> bool {
    e.key == entry.0 && e.addition == Some(entry.1)
}

/// Whether each value of `e` is that of an entry of its side with the key of
/// `e`, and there is at least one.
pub open spec fn drawn_from(
    d: Seq<(FieldId, Seq<u8>)>,
    a: Seq<(FieldId, Seq<u8>)>,
    e: TaggedEntry,
) -> bool {
    &&& e.count() >= 1
    &&& e.deletion.is_some() ==> exists|p: int|
        0 <= p < d.len() && is_deletion_of(e, #[trigger] d[p])
    &&& e.addition.is_some() ==> exists|q: int|
        0 <= q < a.len() && is_addition_of(e, #[trigger] a[q])
}

/// Whether some entry of `record` carries `entry` as its deletion.
pub open spec fn deletes(record: Seq<TaggedEntry>, entry: (FieldId, Seq<u8>)) -> bool {
    exists|x: int| 0 <= x < record.len() && is_deletion_of(#[trigger] record[x], entry)
}

/// Whether some entry of `record` carries `entry` as its addition.
pub open spec fn adds(record: Seq<TaggedEntry>, entry: (FieldId, Seq<u8>)) -> bool {
    exists|x: int| 0 <= x < record.len() && is_addition_of(#[trigger] record[x], entry)
}

/// The walk emits its next entry first and goes on from behind what that
/// entry took.
proof fn lemma_merged_unfold(
    d: Seq<(FieldId, Seq<u8>)>,
    a: Seq<(FieldId, Seq<u8>)>,
    i: int,
    j: int,
)
    requires
        0 <= i <= d.len(),
        0 <= j <= a.len(),
        i < d.len() || j < a.len(),
    ensures
        takes_left(d, a, i, j) || takes_right(d, a, i, j),
        merged_from(d, a, i, j).len() == 1 + merged_from(
            d,
            a,
            if takes_left(d, a, i, j) { i + 1 } else { i },
            if takes_right(d, a, i, j) { j + 1 } else { j },
        ).len(),
        merged_from(d, a, i, j)[0] == next_entry(d, a, i, j),
        forall|x: int|
            1 <= x < merged_from(d, a, i, j).len() ==> #[trigger] merged_from(d, a, i, j)[x]
                == merged_from(
                d,
                a,
                if takes_left(d, a, i, j) { i + 1 } else { i },
                if takes_right(d, a, i, j) { j + 1 } else { j },
            )[x - 1],
{
}

/// Every emitted entry draws its values from the inputs, and every input
/// entry that the walk has not passed is emitted under its own tag.
proof fn lemma_merged_sources(
    d: Seq<(FieldId, Seq<u8>)>,
    a: Seq<(FieldId, Seq<u8>)>,
    i: int,
    j: int,
)
    requires
        0 <= i <= d.len(),
        0 <= j <= a.len(),
    ensures
        forall|x: int|
            0 <= x < merged_from(d, a, i, j).len() ==> drawn_from(
                d,
                a,
                #[trigger] merged_from(d, a, i, j)[x],
            ),
        forall|p: int| i <= p < d.len() ==> deletes(merged_from(d, a, i, j), #[trigger] d[p]),
        forall|q: int| j <= q < a.len() ==> adds(merged_from(d, a, i, j), #[trigger] a[q]),
    decreases d.len() - i + a.len() - j,
{
    if i < d.len() || j < a.len() {
        let left = takes_left(d, a, i, j);
        let right = takes_right(d, a, i, j);
        let ni = if left { i + 1 } else { i };
        let nj = if right { j + 1 } else { j };
        let m = merged_from(d, a, i, j);
        let rest = merged_from(d, a, ni, nj);
        lemma_merged_unfold(d, a, i, j);
        lemma_merged_sources(d, a, ni, nj);
        assert forall|x: int| 0 <= x < m.len() implies drawn_from(d, a, #[trigger] m[x]) by {
            if x > 0 {
                assert(m[x] == rest[x - 1]);
            }
        }
        assert forall|p: int| i <= p < d.len() implies deletes(m, #[trigger] d[p]) by {
            if !(p == i && left) {
                let x = choose|x: int|
                    0 <= x < rest.len() && is_deletion_of(#[trigger] rest[x], d[p]);
                assert(m[x + 1] == rest[x]);
            }
        }
        assert forall|q: int| j <= q < a.len() implies adds(m, #[trigger] a[q]) by {
            if !(q == j && right) {
                let x = choose|x: int|
                    0 <= x < rest.len() && is_addition_of(#[trigger] rest[x], a[q]);
                assert(m[x + 1] == rest[x]);
            }
        }
    }
}

/// From ascending inputs the walk emits ascending keys.
proof fn lemma_merged_ascends(
    d: Seq<(FieldId, Seq<u8>)>,
    a: Seq<(FieldId, Seq<u8>)>,
    i: int,
    j: int,
)
    requires
        0 <= i <= d.len(),
        0 <= j <= a.len(),
        ascending_from(d, i),
        ascending_from(a, j),
    ensures
        ascending(tagged_keys(merged_from(d, a, i, j))),
    decreases d.len() - i + a.len() - j,
{
    if i < d.len() || j < a.len() {
        let ni = if takes_left(d, a, i, j) { i + 1 } else { i };
        let nj = if takes_right(d, a, i, j) { j + 1 } else { j };
        let m = merged_from(d, a, i, j);
        let rest = merged_from(d, a, ni, nj);
        lemma_merged_unfold(d, a, i, j);
        lemma_merged_ascends(d, a, ni, nj);
        if rest.len() > 0 {
            lemma_merged_unfold(d, a, ni, nj);
        }
        let keys = tagged_keys(m);
        let rest_keys = tagged_keys(rest);
        assert forall|x: int, y: int| 0 <= x < y < keys.len() implies keys[x] < keys[y] by {
            if x == 0 {
                assert(rest_keys[0] <= rest_keys[y - 1]);
            } else {
                assert(keys[x] == rest_keys[x - 1]);
            }
        }
    }
}

/// Ascending keys can only have come out of ascending inputs: the walk emits
/// the entries of each input in the order in which they stand there.
proof fn lemma_merged_descends(
    d: Seq<(FieldId, Seq<u8>)>,
    a: Seq<(FieldId, Seq<u8>)>,
    i: int,
    j: int,
)
    requires
        0 <= i <= d.len(),
        0 <= j <= a.len(),
        ascending(tagged_keys(merged_from(d, a, i, j))),
    ensures
        ascending_from(d, i),
        ascending_from(a, j),
    decreases d.len() - i + a.len() - j,
{
    if i < d.len() || j < a.len() {
        let ni = if takes_left(d, a, i, j) { i + 1 } else { i };
        let nj = if takes_right(d, a, i, j) { j + 1 } else { j };
        let m = merged_from(d, a, i, j);
        let rest = merged_from(d, a, ni, nj);
        lemma_merged_unfold(d, a, i, j);
        let keys = tagged_keys(m);
        let rest_keys = tagged_keys(rest);
        assert forall|x: int, y: int| 0 <= x < y < rest_keys.len() implies rest_keys[x]
            < rest_keys[y] by {
            assert(keys[x + 1] == rest_keys[x]);
            assert(keys[y + 1] == rest_keys[y]);
        }
        lemma_merged_descends(d, a, ni, nj);
        if rest.len() > 0 {
            lemma_merged_unfold(d, a, ni, nj);
            assert(keys[0] < keys[1]);
        }
    }
}

/// The keys of a merged record ascend strictly, and so hold no key twice,
/// exactly when the keys of both inputs do.
pub proof fn lemma_merged_keys_ascend(d: Seq<(FieldId, Seq<u8>)>, a: Seq<(FieldId, Seq<u8>)>)
    ensures
        ascending(tagged_keys(merged(d, a))) <==> ascending(keys_of(d)) && ascending(keys_of(a)),
{
    if ascending(keys_of(d)) && ascending(keys_of(a)) {
        assert forall|p: int, q: int| 0 <= p < q < d.len() implies d[p].0 < d[q].0 by {
            assert(keys_of(d)[p] < keys_of(d)[q]);
        }
        assert forall|p: int, q: int| 0 <= p < q < a.len() implies a[p].0 < a[q].0 by {
            assert(keys_of(a)[p] < keys_of(a)[q]);
        }
        lemma_merged_ascends(d, a, 0, 0);
    }
    if ascending(tagged_keys(merged(d, a))) {
        lemma_merged_descends(d, a, 0, 0);
    }
}

/// The merged record of two ascending records has the keys of both and no
/// others. Under each key it holds as deletion what the first record holds
/// under that key and as addition what the second holds: both for a key of
/// both, only the one for a key of one.
pub proof fn lemma_merged_is_union(d: Seq<(FieldId, Seq<u8>)>, a: Seq<(FieldId, Seq<u8>)>)
    requires
        ascending(keys_of(d)),
        ascending(keys_of(a)),
    ensures
        tagged_keys(merged(d, a)).to_set() == keys_of(d).to_set().union(keys_of(a).to_set()),
        forall|x: int|
            0 <= x < merged(d, a).len() ==> (#[trigger] merged(d, a)[x]).deletion == value_of(
                d,
                merged(d, a)[x].key,
            ),
        forall|x: int|
            0 <= x < merged(d, a).len() ==> (#[trigger] merged(d, a)[x]).addition == value_of(
                a,
                merged(d, a)[x].key,
            ),
{
    let m = merged(d, a);
    let keys = tagged_keys(m);
    lemma_merged_keys_ascend(d, a);
    lemma_merged_sources(d, a, 0, 0);
    assert forall|x: int| 0 <= x < m.len() implies (#[trigger] m[x]).deletion == value_of(
        d,
        m[x].key,
    ) by {
        lemma_side_value(d, m, x, m[x].deletion);
        if m[x].deletion.is_none() && keys_of(d).contains(m[x].key) {
            let p = keys_of(d).index_of(m[x].key);
            let y = choose|y: int| 0 <= y < m.len() && is_deletion_of(#[trigger] m[y], d[p]);
            assert(keys[y] == keys[x]);
        }
    }
    assert forall|x: int| 0 <= x < m.len() implies (#[trigger] m[x]).addition == value_of(
        a,
        m[x].key,
    ) by {
        lemma_side_value(a, m, x, m[x].addition);
        if m[x].addition.is_none() && keys_of(a).contains(m[x].key) {
            let q = keys_of(a).index_of(m[x].key);
            let y = choose|y: int| 0 <= y < m.len() && is_addition_of(#[trigger] m[y], a[q]);
            assert(keys[y] == keys[x]);
        }
    }
    assert forall|k: FieldId| keys.contains(k) <==> keys_of(d).contains(k) || keys_of(
        a,
    ).contains(k) by {
        if keys.contains(k) {
            let x = keys.index_of(k);
            assert(drawn_from(d, a, m[x]));
            if m[x].deletion.is_some() {
                let p = choose|p: int| 0 <= p < d.len() && is_deletion_of(m[x], #[trigger] d[p]);
                assert(keys_of(d)[p] == k);
            } else {
                let q = choose|q: int| 0 <= q < a.len() && is_addition_of(m[x], #[trigger] a[q]);
                assert(keys_of(a)[q] == k);
            }
        }
        if keys_of(d).contains(k) {
            let p = keys_of(d).index_of(k);
            let y = choose|y: int| 0 <= y < m.len() && is_deletion_of(#[trigger] m[y], d[p]);
            assert(keys[y] == k);
        }
        if keys_of(a).contains(k) {
            let q = keys_of(a).index_of(k);
            let y = choose|y: int| 0 <= y < m.len() && is_addition_of(#[trigger] m[y], a[q]);
            assert(keys[y] == k);
        }
    }
}

/// A value that entry `x` of `record` has from an ascending record `side` is
/// the value that `side` holds under the key of that entry.
proof fn lemma_side_value(
    side: Seq<(FieldId, Seq<u8>)>,
    record: Seq<TaggedEntry>,
    x: int,
    value: Option<Seq<u8>>,
)
    requires
        ascending(keys_of(side)),
        0 <= x < record.len(),
        value.is_some() ==> exists|p: int|
            0 <= p < side.len() && (#[trigger] side[p]).0 == record[x].key && side[p].1
                == value.unwrap(),
    ensures
        value.is_some() ==> value_of(side, record[x].key) == value,
{
    if value.is_some() {
        let p = choose|p: int|
            0 <= p < side.len() && (#[trigger] side[p]).0 == record[x].key && side[p].1
                == value.unwrap();
        let keys = keys_of(side);
        let q = keys.index_of(record[x].key);
        if p < q {
            assert(keys[p] < keys[q]);
        } else if q < p {
            assert(keys[q] < keys[p]);
        }
    }
}

/// The merged record of two ascending records has one entry for each key that
/// either of them holds.
pub proof fn lemma_merged_len(d: Seq<(FieldId, Seq<u8>)>, a: Seq<(FieldId, Seq<u8>)>)
    requires
        ascending(keys_of(d)),
        ascending(keys_of(a)),
    ensures
        merged(d, a).len() == keys_of(d).to_set().union(keys_of(a).to_set()).len(),
{
    let keys = tagged_keys(merged(d, a));
    lemma_merged_keys_ascend(d, a);
    lemma_merged_is_union(d, a);
    assert forall|x: int, y: int|
        0 <= x < keys.len() && 0 <= y < keys.len() && x != y implies keys[x] != keys[y] by {
        if x < y {
            assert(keys[x] < keys[y]);
        } else {
            assert(keys[y] < keys[x]);
        }
    }
    keys.unique_seq_to_set();
}

/// Writes behind what `buffer` holds the record that merges `deletion` and
/// `addition`: one entry for every key of either, in ascending order, with the
/// value of `deletion` under the deletion tag and the value of `addition`
/// under the addition tag.
///
/// Both inputs must be strictly ascending by key. The walk does not look
/// ahead: the first key that does not follow the one written before it ends
/// the writing with `Error::UnorderedKeys`, and an entry whose tagged values
/// are too long for a record ends it with `Error::Io`; the entries before it
/// stay written.
pub fn merge_entries(
    deletion: &[(FieldId, &[u8])],
    addition: &[(FieldId, &[u8])],
    buffer: &mut Vec<u8>,
) -> (res: Result<(), Error>)
    ensures
        written(
            merged(entries_view(deletion@), entries_view(addition@)),
            old(buffer)@,
            final(buffer)@,
            res,
        ),
        res.is_ok() <==> ascending(keys_of(entries_view(deletion@))) && ascending(
            keys_of(entries_view(addition@)),
        ) && all_fit(merged(entries_view(deletion@), entries_view(addition@))),
        ascending(keys_of(entries_view(deletion@))) && ascending(keys_of(entries_view(addition@)))
            && all_small(merged(entries_view(deletion@), entries_view(addition@)))
            ==> res.is_ok(),
        res.is_ok() ==> is_union_of(
            merged(entries_view(deletion@), entries_view(addition@)),
            entries_view(deletion@),
            entries_view(addition@),
        ),
{
    let ghost d = entries_view(deletion@);
    let ghost a = entries_view(addition@);
    let ghost record = merged(d, a);
    let ghost mut n: int = 0;
    proof {
        assert(record.take(0) =~= Seq::empty());
        assert(record.subrange(0, record.len() as int) =~= record);
    }
    let mut scratch: Vec<u8> = Vec::new();
    let mut last_key: Option<FieldId> = None;
    let mut i: usize = 0;
    let mut j: usize = 0;
    while i < deletion.len() || j < addition.len()
        invariant
            0 <= i <= deletion.len(),
            0 <= j <= addition.len(),
            d == entries_view(deletion@),
            a == entries_view(addition@),
            record == merged(d, a),
            0 <= n <= record.len(),
            record.subrange(n, record.len() as int) == merged_from(d, a, i as int, j as int),
            forall|k: int| 0 <= k < n ==> takes(record, k),
            buffer@ == old(buffer)@ + record_bytes(record.take(n)),
            last_key == (if n == 0 { None } else { Some(record[n - 1].key) }),
        decreases deletion.len() - i + addition.len() - j,
    {
        let left = i < deletion.len() && (j >= addition.len() || deletion[i].0 <= addition[j].0);
        let right = j < addition.len() && (i >= deletion.len() || addition[j].0 <= deletion[i].0);
        let key = if left { deletion[i].0 } else { addition[j].0 };
        let del = if left { Some(deletion[i].1) } else { None };
        let add = if right { Some(addition[j].1) } else { None };
        proof {
            let rest = merged_from(d, a, i as int, j as int);
            assert(rest.len() == record.len() - n);
            assert(rest[0] == record[n]);
            assert(tagged_entry(key, del, add) == next_entry(d, a, i as int, j as int));
            assert(record.subrange(n + 1, record.len() as int) =~= rest.subrange(
                1,
                rest.len() as int,
            ));
        }
        match write_tagged_entry(buffer, &mut scratch, last_key, key, del, add) {
            Ok(()) => {},
            Err(e) => {
                proof {
                    assert(stops_at(record, n));
                    lemma_accepted(record, n);
                    lemma_accepted_all(record);
                    lemma_merged_keys_ascend(d, a);
                    if !key_follows(record, n) {
                        let keys = tagged_keys(record);
                        assert(keys[n - 1] >= keys[n]);
                    }
                }
                return Err(e);
            },
        }
        proof {
            lemma_record_bytes_step(record, n);
            n = n + 1;
        }
        last_key = Some(key);
        if left {
            i += 1;
        }
        if right {
            j += 1;
        }
    }
    proof {
        assert(record.take(n) =~= record);
        assert(stops_at(record, n));
        lemma_accepted(record, n);
        lemma_accepted_all(record);
        lemma_merged_keys_ascend(d, a);
        lemma_merged_is_union(d, a);
        lemma_merged_len(d, a);
    }
    Ok(())
}

/// Writes behind what `buffer` holds the record that merges the records under
/// `deletion` and `addition`: one entry for every key of either, in ascending
/// order, with the value of `deletion` under the deletion tag and the value of
/// `addition` under the addition tag.
///
/// Both records must be strictly ascending by key. The first key that does
/// not follow the one written before it ends the writing with
/// `Error::UnorderedKeys`, and an entry whose tagged values are too long for a
/// record ends it with `Error::Io`; the entries before it stay written.
pub fn del_add_from_two_obkvs(
    deletion: obkv::KvReader<FieldId>,
    addition: obkv::KvReader<FieldId>,
    buffer: &mut Vec<u8>,
) -> (res: Result<(), Error>)
    ensures
        written(
            merged(reader_entries(deletion), reader_entries(addition)),
            old(buffer)@,
            final(buffer)@,
            res,
        ),
        res.is_ok() <==> ascending(keys_of(reader_entries(deletion))) && ascending(
            keys_of(reader_entries(addition)),
        ) && all_fit(merged(reader_entries(deletion), reader_entries(addition))),
        ascending(keys_of(reader_entries(deletion))) && ascending(keys_of(reader_entries(addition)))
            && all_small(merged(reader_entries(deletion), reader_entries(addition)))
            ==> res.is_ok(),
        res.is_ok() ==> is_union_of(
            merged(reader_entries(deletion), reader_entries(addition)),
            reader_entries(deletion),
            reader_entries(addition),
        ),
{
    let deletions = read_entries(&deletion);
    let additions = read_entries(&addition);
    merge_entries(deletions.as_slice(), additions.as_slice(), buffer)
}

} // verus!
