use del_add::{DelAdd, Error};

#[test]
fn tags_are_stored_as_zero_and_one() {
    assert_eq!(DelAdd::Deletion.to_be_bytes(), [0u8]);
    assert_eq!(DelAdd::Addition.to_be_bytes(), [1u8]);
}

#[test]
fn both_tags_are_read_back() {
    assert!(matches!(DelAdd::from_be_bytes([0]), Ok(DelAdd::Deletion)));
    assert!(matches!(DelAdd::from_be_bytes([1]), Ok(DelAdd::Addition)));
}

#[test]
fn decoding_undoes_encoding() {
    for tag in [DelAdd::Deletion, DelAdd::Addition] {
        let read = DelAdd::from_be_bytes(tag.to_be_bytes());
        assert!(matches!(read, Ok(t) if t == tag));
    }
    for byte in [0u8, 1u8] {
        match DelAdd::from_be_bytes([byte]) {
            Ok(tag) => assert_eq!(tag.to_be_bytes(), [byte]),
            Err(e) => panic!("byte {} was refused: {:?}", byte, e),
        }
    }
}

#[test]
fn every_other_byte_is_an_unknown_tag() {
    for byte in 2u8..=255 {
        match DelAdd::from_be_bytes([byte]) {
            Err(Error::UnknownTag(found)) => assert_eq!(found, byte),
            other => panic!("byte {} gave {:?}", byte, other),
        }
    }
}

#[test]
fn deletion_sorts_before_addition() {
    assert!(DelAdd::Deletion < DelAdd::Addition);
    assert!(DelAdd::Deletion.to_be_bytes() < DelAdd::Addition.to_be_bytes());
    assert_ne!(DelAdd::Deletion, DelAdd::Addition);
}
