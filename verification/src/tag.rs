//! Tags: the first octet of a TLV unit.
//!
//! Only single-octet tags are supported (tag numbers up to 30); the
//! multi-octet high-tag-number form is rejected.

use vstd::prelude::*;
use crate::errors::DerError;

verus! {

/// The class bits of a tag octet, except the context-specific class, which
/// gets its own `Tag` variant.
#[derive(Clone, Copy, Debug, PartialEq, Eq, Structural)]
pub enum TagClass {
    Universal,
    Application,
    Private,
}

/// A decoded tag: the universal types this codec interprets get their own
/// variant; every other single-octet tag is carried as class, constructed
/// bit and number.  Tags are immutable and compared by equality.
#[derive(Clone, Copy, Debug, PartialEq, Eq, Structural)]
pub enum Tag {
    /// Universal primitive INTEGER (octet `0x02`).
    Integer,
    /// Universal primitive BIT STRING (octet `0x03`).
    BitString,
    /// Universal constructed SEQUENCE (octet `0x30`).
    Sequence,
    /// A context-specific tag, as used for optional certificate fields.
    ContextSpecific { constructed: bool, number: u8 },
    /// Any other single-octet tag.
    Other { class: TagClass, constructed: bool, number: u8 },
}

/// The high two bits of the octet for each class `Other` can carry.
pub open spec fn class_base(c: TagClass) -> int {
    match c {
        TagClass::Universal => 0x00,
        TagClass::Application => 0x40,
        TagClass::Private => 0xC0,
    }
}

/// The octet a tag encodes to.
pub open spec fn tag_octet(t: Tag) -> u8 {
    match t {
        Tag::Integer => 0x02,
        Tag::BitString => 0x03,
        Tag::Sequence => 0x30,
        Tag::ContextSpecific { constructed, number } => (
            0x80 + (if constructed { 0x20int } else { 0int }) + number
        ) as u8,
        Tag::Other { class, constructed, number } => (
            class_base(class) + (if constructed { 0x20int } else { 0int }) + number
        ) as u8,
    }
}

/// The tag an octet decodes to; `None` for the high-tag-number form.
/// The three named universal types always decode to their own variant,
/// never to `Other`.
pub open spec fn tag_of_octet(b: u8) -> Option<Tag> {
    let number = (b as int) % 32;
    let constructed = ((b as int) / 32) % 2 == 1;
    let class_part = (b as int) / 64;
    if number == 31 {
        None
    } else if b == 0x02 {
        Some(Tag::Integer)
    } else if b == 0x03 {
        Some(Tag::BitString)
    } else if b == 0x30 {
        Some(Tag::Sequence)
    } else if class_part == 2 {
        Some(Tag::ContextSpecific { constructed, number: number as u8 })
    } else {
        Some(Tag::Other {
            class: if class_part == 0 {
                TagClass::Universal
            } else if class_part == 1 {
                TagClass::Application
            } else {
                TagClass::Private
            },
            constructed,
            number: number as u8,
        })
    }
}

impl Tag {
    /// A well-formed tag: the number fits a single octet, and none of the
    /// named universal types hides in an `Other` variant.
    pub open spec fn wf(&self) -> bool {
        match *self {
            Tag::Integer => true,
            Tag::BitString => true,
            Tag::Sequence => true,
            Tag::ContextSpecific { constructed, number } => number <= 30,
            Tag::Other { class, constructed, number } => {
                &&& number <= 30
                &&& !(class == TagClass::Universal && !constructed && number == 2)
                &&& !(class == TagClass::Universal && !constructed && number == 3)
                &&& !(class == TagClass::Universal && constructed && number == 16)
            },
        }
    }

    /// Decode a tag octet; fails on the unsupported high-tag-number form.
    pub fn from_octet(b: u8) -> (r: Result<Tag, DerError>)
        ensures
            r is Ok <==> tag_of_octet(b) is Some,
            r is Ok ==> tag_of_octet(b) == Some(r->Ok_0),
            r is Ok ==> r->Ok_0.wf() && tag_octet(r->Ok_0) == b,
            r is Err ==> r->Err_0 == DerError::UnexpectedTag,
    {
        let number: u8 = b % 32;
        let constructed: bool = (b / 32) % 2 == 1;
        let class_part: u8 = b / 64;
        if number == 31 {
            Err(DerError::UnexpectedTag)
        } else if b == 0x02 {
            Ok(Tag::Integer)
        } else if b == 0x03 {
            Ok(Tag::BitString)
        } else if b == 0x30 {
            Ok(Tag::Sequence)
        } else {
            proof {
                lemma_octet_decompose(b);
            }
            if class_part == 2 {
                Ok(Tag::ContextSpecific { constructed, number })
            } else {
                Ok(Tag::Other {
                    class: if class_part == 0 {
                        TagClass::Universal
                    } else if class_part == 1 {
                        TagClass::Application
                    } else {
                        TagClass::Private
                    },
                    constructed,
                    number,
                })
            }
        }
    }

    /// The octet this tag encodes to.
    pub fn octet(&self) -> (b: u8)
        requires
            self.wf(),
        ensures
            b == tag_octet(*self),
    {
        match *self {
            Tag::Integer => 0x02,
            Tag::BitString => 0x03,
            Tag::Sequence => 0x30,
            Tag::ContextSpecific { constructed, number } => {
                0x80 + (if constructed { 0x20u8 } else { 0u8 }) + number
            },
            Tag::Other { class, constructed, number } => {
                let base: u8 = match class {
                    TagClass::Universal => 0x00,
                    TagClass::Application => 0x40,
                    TagClass::Private => 0xC0,
                };
                base + (if constructed { 0x20u8 } else { 0u8 }) + number
            },
        }
    }
}

/// An octet is the sum of its class bits, constructed bit and tag number.
proof fn lemma_octet_decompose(b: u8)
    ensures
        64 * ((b as int) / 64) + 32 * (((b as int) / 32) % 2) + (b as int) % 32 == b as int,
        ((b as int) / 32) % 2 == ((b as int) % 64) / 32,
{
    let n = b as int;
    assert(64 * (n / 64) + 32 * ((n / 32) % 2) + n % 32 == n
        && (n / 32) % 2 == (n % 64) / 32) by (nonlinear_arith)
        requires 0 <= n < 256;
}

} // verus!
