//! Tags: the six-byte marks that frame the parts of a segment file.
//!
//! Every tag begins with the three bytes `MD:`.  A reader that has just
//! left a compressed frame may stand one byte short of the next tag, and
//! finds it by its prefix.

use vstd::prelude::*;
use crate::Error;

verus! {

#[derive(Debug, Clone, Copy, PartialEq, Eq, Structural)]
pub enum Tag {
    Block,
    Segment,
    End,
}

/// The length of a tag.
pub const TAG_LENGTH: usize = 6;

/// The length of the prefix that all tags share.
pub const TAG_PREFIX_LENGTH: usize = 3;

/// The bytes `MD:`.
pub open spec fn tag_prefix() -> Seq<u8> {
    seq![0x4Du8, 0x44u8, 0x3Au8]
}

/// The bytes of a tag: `MD:BLK`, `MD:SEG` or `MD:END`.
pub open spec fn tag_bytes(tag: Tag) -> Seq<u8> {
    match tag {
        Tag::Block => seq![0x4Du8, 0x44u8, 0x3Au8, 0x42u8, 0x4Cu8, 0x4Bu8],
        Tag::Segment => seq![0x4Du8, 0x44u8, 0x3Au8, 0x53u8, 0x45u8, 0x47u8],
        Tag::End => seq![0x4Du8, 0x44u8, 0x3Au8, 0x45u8, 0x4Eu8, 0x44u8],
    }
}

/// Whether the bytes at `pos` are the tag prefix.
pub open spec fn prefix_at(bytes: Seq<u8>, pos: int) -> bool {
    pos + 3 <= bytes.len() && bytes.subrange(pos, pos + 3) == tag_prefix()
}

/// Whether the bytes at `pos` are the tag.
pub open spec fn tag_at(bytes: Seq<u8>, pos: int, tag: Tag) -> bool {
    pos + 6 <= bytes.len() && bytes.subrange(pos, pos + 6) == tag_bytes(tag)
}

/// Where the next tag begins for a reader at `pos`: there, or one byte on.
pub open spec fn next_tag_pos(bytes: Seq<u8>, pos: int) -> Result<int, Error> {
    if prefix_at(bytes, pos) {
        Ok(pos)
    } else if pos + 3 <= bytes.len() && prefix_at(bytes, pos + 1) {
        Ok(pos + 1)
    } else {
        Err(Error::IoError)
    }
}

/// The tag that stands at `pos`.  Too few bytes are an I/O failure, six
/// bytes that are no tag a data failure.
pub open spec fn tag_read(bytes: Seq<u8>, pos: int) -> Result<Tag, Error> {
    if pos + 6 > bytes.len() {
        Err(Error::IoError)
    } else if tag_at(bytes, pos, Tag::Block) {
        Ok(Tag::Block)
    } else if tag_at(bytes, pos, Tag::Segment) {
        Ok(Tag::Segment)
    } else if tag_at(bytes, pos, Tag::End) {
        Ok(Tag::End)
    } else {
        Err(Error::DataError)
    }
}

/// A tag begins with the tag prefix.
pub proof fn lemma_tag_has_prefix(bytes: Seq<u8>, pos: int, tag: Tag)
    requires
        0 <= pos,
        tag_at(bytes, pos, tag),
    ensures
        prefix_at(bytes, pos),
        next_tag_pos(bytes, pos) == Ok::<int, Error>(pos),
        tag_read(bytes, pos) == Ok::<Tag, Error>(tag),
{
    let t = bytes.subrange(pos, pos + 6);
    assert(bytes.subrange(pos, pos + 3) =~= t.subrange(0, 3));
    assert(t.subrange(0, 3) =~= tag_prefix());
    assert(tag_bytes(Tag::Block)[3] != tag_bytes(Tag::Segment)[3]);
    assert(tag_bytes(Tag::Block)[3] != tag_bytes(Tag::End)[3]);
    assert(tag_bytes(Tag::Segment)[3] != tag_bytes(Tag::End)[3]);
}

/// Whether the three bytes at `pos` are the tag prefix; a failure where
/// there are not three bytes.
pub fn check_for_prefix(bytes: &[u8], pos: usize) -> (r: Result<bool, Error>)
    ensures
        pos + 3 > bytes@.len() ==> r == Err::<bool, Error>(Error::IoError),
        pos + 3 <= bytes@.len() ==> r == Ok::<bool, Error>(prefix_at(bytes@, pos as int)),
{
    let n = bytes.len();
    if n < 3 || pos > n - 3 {
        return Err(Error::IoError);
    }
    let found = bytes[pos] == 0x4D && bytes[pos + 1] == 0x44 && bytes[pos + 2] == 0x3A;
    proof {
        let w = bytes@.subrange(pos as int, pos + 3);
        if found {
            assert(w =~= tag_prefix());
        } else {
            assert(w[0] == bytes@[pos as int] && w[1] == bytes@[pos + 1] && w[2] == bytes@[pos
                + 2]);
        }
    }
    Ok(found)
}

/// Moves a reader at `pos` to the next tag: it stays where the prefix is
/// found at once, steps one byte on where it is found there, and fails
/// otherwise.
pub fn skip_to_next_tag(bytes: &[u8], pos: usize) -> (r: Result<usize, Error>)
    ensures
        match next_tag_pos(bytes@, pos as int) {
            Ok(p) => r == Ok::<usize, Error>(p as usize) && p <= bytes@.len(),
            Err(e) => r == Err::<usize, Error>(e),
        },
{
    let n = bytes.len();
    match check_for_prefix(bytes, pos) {
        Err(e) => {
            return Err(e);
        },
        Ok(true) => {
            return Ok(pos);
        },
        Ok(false) => {},
    }
    match check_for_prefix(bytes, pos + 1) {
        Err(e) => Err(e),
        Ok(true) => Ok(pos + 1),
        Ok(false) => Err(Error::IoError),
    }
}

/// Whether the six bytes at `pos` are the tag.
fn tag_stands_at(bytes: &[u8], pos: usize, tag: Tag) -> (r: bool)
    requires
        pos + 6 <= bytes@.len(),
    ensures
        r == tag_at(bytes@, pos as int, tag),
{
    let (d, e, f): (u8, u8, u8) = match tag {
        Tag::Block => (0x42, 0x4C, 0x4B),
        Tag::Segment => (0x53, 0x45, 0x47),
        Tag::End => (0x45, 0x4E, 0x44),
    };
    let found = bytes[pos] == 0x4D && bytes[pos + 1] == 0x44 && bytes[pos + 2] == 0x3A && bytes[pos
        + 3] == d && bytes[pos + 4] == e && bytes[pos + 5] == f;
    proof {
        let w = bytes@.subrange(pos as int, pos + 6);
        if found {
            assert(w =~= tag_bytes(tag));
        } else {
            assert(w[0] == bytes@[pos as int] && w[1] == bytes@[pos + 1] && w[2] == bytes@[pos
                + 2] && w[3] == bytes@[pos + 3] && w[4] == bytes@[pos + 4] && w[5] == bytes@[pos
                + 5]);
        }
    }
    found
}

/// Reads the tag at `pos` and gives the position after it.
pub fn read_tag(bytes: &[u8], pos: usize) -> (r: Result<(Tag, usize), Error>)
    ensures
        match tag_read(bytes@, pos as int) {
            Ok(tag) => r == Ok::<(Tag, usize), Error>((tag, (pos + 6) as usize)),
            Err(e) => r == Err::<(Tag, usize), Error>(e),
        },
{
    let n = bytes.len();
    if n < 6 || pos > n - 6 {
        return Err(Error::IoError);
    }
    if tag_stands_at(bytes, pos, Tag::Block) {
        Ok((Tag::Block, pos + 6))
    } else if tag_stands_at(bytes, pos, Tag::Segment) {
        Ok((Tag::Segment, pos + 6))
    } else if tag_stands_at(bytes, pos, Tag::End) {
        Ok((Tag::End, pos + 6))
    } else {
        Err(Error::DataError)
    }
}

/// Reads the tag at `pos`, which must be `tag`, and gives the position
/// after it.  Another tag there is a data failure.
pub fn read_expected_tag(bytes: &[u8], pos: usize, tag: Tag) -> (r: Result<usize, Error>)
    ensures
        match tag_read(bytes@, pos as int) {
            Ok(t) => if t == tag {
                r == Ok::<usize, Error>((pos + 6) as usize)
            } else {
                r == Err::<usize, Error>(Error::DataError)
            },
            Err(e) => r == Err::<usize, Error>(e),
        },
{
    match read_tag(bytes, pos) {
        Ok((t, next)) => {
            if t == tag {
                Ok(next)
            } else {
                Err(Error::DataError)
            }
        },
        Err(e) => Err(e),
    }
}

/// Appends the six bytes of the tag.
pub fn write_tag(out: &mut Vec<u8>, tag: Tag)
    ensures
        final(out)@ == old(out)@ + tag_bytes(tag),
{
    let (d, e, f): (u8, u8, u8) = match tag {
        Tag::Block => (0x42, 0x4C, 0x4B),
        Tag::Segment => (0x53, 0x45, 0x47),
        Tag::End => (0x45, 0x4E, 0x44),
    };
    out.push(0x4D);
    out.push(0x44);
    out.push(0x3A);
    out.push(d);
    out.push(e);
    out.push(f);
    assert(out@ =~= old(out)@ + tag_bytes(tag));
}

} // verus!
