//! The one-byte tag that tells the two sides of a field update apart.

use vstd::prelude::*;
use crate::error::Error;

verus! {

/// The side of an update that a value belongs to: `Deletion` marks the value
/// to take out of the database, `Addition` the value to put in.
///
/// A tag is stored as one byte, and `Deletion` sorts before `Addition`.
#[derive(Clone, Copy, PartialEq, Eq, Structural, PartialOrd, Debug)]
pub enum DelAdd {
    Deletion,
    Addition,
}

impl DelAdd {
    /// The byte that stands for this tag in a stored record.
    pub open spec fn byte(self) -> u8 {
        match self {
            DelAdd::Deletion => 0,
            DelAdd::Addition => 1,
        }
    }

    /// The tag that a byte stands for, where there is one.
    pub open spec fn of_byte(byte: u8) -> Option<DelAdd> {
        if byte == 0 {
            Some(DelAdd::Deletion)
        } else if byte == 1 {
            Some(DelAdd::Addition)
        } else {
            None
        }
    }

    /// The stored form of this tag.
    pub fn to_be_bytes(&self) -> (bytes: [u8; 1])
        ensures
            bytes@ == seq![self.byte()],
    {
        match self {
            DelAdd::Deletion => [0u8],
            DelAdd::Addition => [1u8],
        }
    }

    /// Reads a tag back from its stored form. Any byte but 0 and 1 is reported
    /// as `Error::UnknownTag` with the offending byte.
    pub fn from_be_bytes(array: [u8; 1]) -> (res: Result<DelAdd, Error>)
        ensures
            match res {
                Ok(tag) => DelAdd::of_byte(array@[0]) == Some(tag),
                Err(Error::UnknownTag(byte)) => byte == array@[0] && DelAdd::of_byte(byte).is_none(),
                Err(_) => false,
            },
    {
        let byte: u8 = array[0];
        if byte == 0 {
            Ok(DelAdd::Deletion)
        } else if byte == 1 {
            Ok(DelAdd::Addition)
        } else {
            Err(Error::UnknownTag(byte))
        }
    }
}

/// Decoding undoes encoding: every tag is read back from its own byte, and a
/// byte that decodes at all is the byte of the tag it decodes to.
pub proof fn lemma_tag_round_trip(tag: DelAdd, byte: u8)
    ensures
        DelAdd::of_byte(tag.byte()) == Some(tag),
        DelAdd::of_byte(byte) == Some(tag) <==> tag.byte() == byte,
        DelAdd::of_byte(byte).is_some() <==> byte == 0 || byte == 1,
        DelAdd::Deletion.byte() < DelAdd::Addition.byte(),
{
}

} // verus!
