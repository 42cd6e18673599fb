use del_add::{into_del_add_obkv, annotate_entries, Error};
use obkv::{KvReaderU16, KvReaderU8, KvWriterU16, KvWriterU8};

/// The stored bytes of a plain record, written by one writer.
fn record(entries: &[(u16, &[u8])]) -> Vec<u8> {
    let mut writer = KvWriterU16::memory();
    for (key, value) in entries {
        writer.insert(*key, value).unwrap();
    }
    writer.into_inner().unwrap()
}

/// A tagged record read back: each key with the tag bytes and values under it.
fn decode(bytes: &[u8]) -> Vec<(u16, Vec<(u8, Vec<u8>)>)> {
    KvReaderU16::new(bytes)
        .iter()
        .map(|(key, nested)| {
            let inner = KvReaderU8::new(nested).iter().map(|(t, v)| (t, v.to_vec())).collect();
            (key, inner)
        })
        .collect()
}

/// The tagged record of `entries`, written with one writer per record.
fn expected(entries: &[(u16, &[u8])], deletion: bool, addition: bool) -> Vec<u8> {
    let mut writer = KvWriterU16::memory();
    for (key, value) in entries {
        let mut nested = KvWriterU8::memory();
        if deletion {
            nested.insert(0, value).unwrap();
        }
        if addition {
            nested.insert(1, value).unwrap();
        }
        writer.insert(*key, nested.into_inner().unwrap()).unwrap();
    }
    writer.into_inner().unwrap()
}

#[test]
fn value_kept_as_deletion() {
    let input = record(&[(5, b"x")]);
    let mut buffer = Vec::new();
    into_del_add_obkv(KvReaderU16::new(&input), true, false, &mut buffer).unwrap();
    assert_eq!(decode(&buffer), vec![(5, vec![(0, b"x".to_vec())])]);
    assert_eq!(buffer, vec![0, 5, 3, 0, 1, b'x']);
}

#[test]
fn value_kept_as_addition() {
    let input = record(&[(5, b"x")]);
    let mut buffer = Vec::new();
    into_del_add_obkv(KvReaderU16::new(&input), false, true, &mut buffer).unwrap();
    assert_eq!(decode(&buffer), vec![(5, vec![(1, b"x".to_vec())])]);
    assert_eq!(buffer, vec![0, 5, 3, 1, 1, b'x']);
}

#[test]
fn value_kept_on_both_sides() {
    let input = record(&[(5, b"x")]);
    let mut buffer = Vec::new();
    into_del_add_obkv(KvReaderU16::new(&input), true, true, &mut buffer).unwrap();
    assert_eq!(decode(&buffer), vec![(5, vec![(0, b"x".to_vec()), (1, b"x".to_vec())])]);
    assert_eq!(buffer, vec![0, 5, 6, 0, 1, b'x', 1, 1, b'x']);
}

#[test]
fn no_flag_leaves_empty_fields() {
    let input = record(&[(5, b"x")]);
    let mut buffer = Vec::new();
    into_del_add_obkv(KvReaderU16::new(&input), false, false, &mut buffer).unwrap();
    assert_eq!(decode(&buffer), vec![(5, vec![])]);
    assert_eq!(buffer, vec![0, 5, 0]);
}

#[test]
fn keys_are_stored_most_significant_byte_first() {
    let mut buffer = Vec::new();
    annotate_entries(&[(0x0102, b"a"), (0xfffe, b"")], true, false, &mut buffer).unwrap();
    assert_eq!(buffer, vec![0x01, 0x02, 3, 0, 1, b'a', 0xff, 0xfe, 2, 0, 0]);
}

#[test]
fn fields_keep_their_keys_and_order() {
    let entries: Vec<(u16, Vec<u8>)> =
        (0u16..40).map(|i| (i * 7 + 1, vec![i as u8; (i % 5) as usize])).collect();
    let plain: Vec<(u16, &[u8])> = entries.iter().map(|(k, v)| (*k, v.as_slice())).collect();
    let input = record(&plain);
    for (deletion, addition) in [(false, false), (true, false), (false, true), (true, true)] {
        let mut buffer = Vec::new();
        into_del_add_obkv(KvReaderU16::new(&input), deletion, addition, &mut buffer).unwrap();
        let tagged = decode(&buffer);
        let keys: Vec<u16> = tagged.iter().map(|(k, _)| *k).collect();
        let input_keys: Vec<u16> = entries.iter().map(|(k, _)| *k).collect();
        assert_eq!(keys, input_keys);
        for ((_, nested), (_, value)) in tagged.iter().zip(entries.iter()) {
            assert_eq!(nested.len(), deletion as usize + addition as usize);
            for (_, v) in nested {
                assert_eq!(v, value);
            }
            let tags: Vec<u8> = nested.iter().map(|(t, _)| *t).collect();
            let mut wanted = Vec::new();
            if deletion {
                wanted.push(0);
            }
            if addition {
                wanted.push(1);
            }
            assert_eq!(tags, wanted);
        }
    }
}

#[test]
fn tagged_record_is_what_one_writer_stores() {
    let lengths = [0usize, 1, 127, 128, 300, 16383, 16384, 70000, 2_097_151, 2_097_152];
    let values: Vec<Vec<u8>> =
        lengths.iter().map(|n| (0..*n).map(|i| (i % 251) as u8).collect()).collect();
    let plain: Vec<(u16, &[u8])> =
        values.iter().enumerate().map(|(i, v)| (300 * i as u16, v.as_slice())).collect();
    for (deletion, addition) in [(false, false), (true, false), (false, true), (true, true)] {
        let mut buffer = Vec::new();
        annotate_entries(&plain, deletion, addition, &mut buffer).unwrap();
        assert_eq!(buffer, expected(&plain, deletion, addition));
    }
}

#[test]
fn plain_entries_and_reader_agree() {
    let plain: [(u16, &[u8]); 3] = [(1, b"one"), (2, b"two"), (700, b"seven hundred")];
    let input = record(&plain);
    let mut from_reader = Vec::new();
    into_del_add_obkv(KvReaderU16::new(&input), true, true, &mut from_reader).unwrap();
    let mut from_entries = Vec::new();
    annotate_entries(&plain, true, true, &mut from_entries).unwrap();
    assert_eq!(from_reader, from_entries);
    assert_eq!(from_reader, expected(&plain, true, true));
}

#[test]
fn tagged_record_goes_behind_what_the_buffer_holds() {
    let input = record(&[(5, b"x")]);
    let mut buffer = vec![9, 9, 9];
    into_del_add_obkv(KvReaderU16::new(&input), true, false, &mut buffer).unwrap();
    assert_eq!(buffer, vec![9, 9, 9, 0, 5, 3, 0, 1, b'x']);
}

#[test]
fn empty_record_writes_nothing() {
    let mut buffer = vec![7];
    into_del_add_obkv(KvReaderU16::new(&[]), true, true, &mut buffer).unwrap();
    assert_eq!(buffer, vec![7]);
    annotate_entries(&[], true, true, &mut buffer).unwrap();
    assert_eq!(buffer, vec![7]);
}

#[test]
fn descending_key_is_refused() {
    let mut buffer = Vec::new();
    let res = annotate_entries(&[(2, b"b"), (1, b"a"), (3, b"c")], true, false, &mut buffer);
    assert!(matches!(res, Err(Error::UnorderedKeys)));
    assert_eq!(buffer, expected(&[(2, b"b")], true, false));
}

#[test]
fn repeated_key_is_refused() {
    let mut buffer = Vec::new();
    let res = annotate_entries(&[(1, b"a"), (1, b"b")], false, true, &mut buffer);
    assert!(matches!(res, Err(Error::UnorderedKeys)));
    assert_eq!(buffer, expected(&[(1, b"a")], false, true));
}

#[test]
fn unordered_stored_record_is_refused() {
    let mut input = record(&[(2, b"b")]);
    input.extend_from_slice(&record(&[(1, b"a")]));
    let mut buffer = Vec::new();
    let res = into_del_add_obkv(KvReaderU16::new(&input), true, true, &mut buffer);
    assert!(matches!(res, Err(Error::UnorderedKeys)));
    assert_eq!(buffer, expected(&[(2, b"b")], true, true));
}
