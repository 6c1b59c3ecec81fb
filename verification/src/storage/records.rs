//! Finding the record at a place in a segment.

use super::{invalid, refused, Invalid};
use crate::bytes;
use crate::format::{decode_record, has_tag, Decode, MAX_PAYLOAD, RECORD_HEADER};
use crate::text;
use vstd::prelude::*;
use vstd::slice::slice_subrange;

verus! {

/// The size of the record that begins with `head` at byte `position` of a
/// segment, `None` where it does not end within the `room` bytes from there on,
/// or why no record begins so.
pub open spec fn sized(head: Seq<u8>, position: int, room: int) -> Result<Option<int>, Seq<char>> {
    let length = crate::format::field(head, 8, 4);
    if head.take(8) != crate::format::record_tag() {
        Err("invalid record header at byte "@ + text::decimal(position as nat))
    } else if length > MAX_PAYLOAD {
        Err("oversized record at byte "@ + text::decimal(position as nat))
    } else if room < RECORD_HEADER + length {
        Ok(None)
    } else {
        Ok(Some(RECORD_HEADER + length))
    }
}

/// The payload of the record that `bytes` holds at the offset `expected`, or
/// why they hold no whole record.
pub open spec fn whole(bytes: Seq<u8>, expected: u64) -> Result<Seq<u8>, Seq<char>> {
    match crate::format::decoded_record(bytes, expected) {
        Ok(Some(payload)) => Ok(payload),
        Ok(None) => Err("incomplete complete-length record"@),
        Err(message) => Err(message),
    }
}

/// What stands in a segment file from `position` up to `boundary`: the payload
/// of the record at the offset `expected`, `None` where the record does not end
/// within them, or why they do not begin with that record.
pub open spec fn found(file: Seq<u8>, position: int, boundary: int, expected: u64) -> Result<
    Option<Seq<u8>>,
    Seq<char>,
> {
    let room = boundary - position;
    if room < RECORD_HEADER {
        Ok(None)
    } else {
        match sized(file.subrange(position, position + RECORD_HEADER), position, room) {
            Err(message) => Err(message),
            Ok(None) => Ok(None),
            Ok(Some(size)) => match whole(file.subrange(position, position + size), expected) {
                Ok(payload) => Ok(Some(payload)),
                Err(message) => Err(message),
            },
        }
    }
}

/// The size of the record that begins with `head` at byte `position`.
pub fn record_size(head: &[u8], position: u64, room: u64) -> (r: Result<Option<usize>, Invalid>)
    requires
        head@.len() == RECORD_HEADER,
    ensures
        match sized(head@, position as int, room as int) {
            Ok(Some(size)) => r == Ok::<Option<usize>, Invalid>(Some(size as usize)) && size
                <= RECORD_HEADER + MAX_PAYLOAD,
            Ok(None) => r == Ok::<Option<usize>, Invalid>(None),
            Err(message) => r matches Err(e) && e@ == message,
        },
{
    proof {
        reveal_strlit("");
    }
    if !has_tag(head, 0x52) {
        let message = text::with_number("invalid record header at byte ", position, "");
        assert(message@ =~= "invalid record header at byte "@ + text::decimal(position as nat));
        return Err(invalid(message));
    }
    let length: u64 = bytes::read_le(head, 8, 4);
    if length > MAX_PAYLOAD as u64 {
        let message = text::with_number("oversized record at byte ", position, "");
        assert(message@ =~= "oversized record at byte "@ + text::decimal(position as nat));
        return Err(invalid(message));
    }
    let size: usize = RECORD_HEADER + length as usize;
    if room < size as u64 {
        return Ok(None);
    }
    Ok(Some(size))
}

/// Checks that `bytes` are a whole record at the offset `expected`.
pub fn check_record(bytes: &[u8], expected: u64) -> (r: Result<(), Invalid>)
    ensures
        match whole(bytes@, expected) {
            Ok(payload) => r is Ok,
            Err(message) => r matches Err(e) && e@ == message,
        },
{
    match decode_record(bytes, expected) {
        Ok(Decode::Complete { .. }) => Ok(()),
        Ok(Decode::Incomplete) => Err(refused("incomplete complete-length record")),
        Err(message) => Err(invalid(message)),
    }
}

/// A record that a segment file holds has the size that its payload says.
pub proof fn lemma_found_size(file: Seq<u8>, position: int, boundary: int, expected: u64)
    requires
        0 <= position,
        boundary <= file.len(),
    ensures
        match found(file, position, boundary, expected) {
            Ok(Some(payload)) => {
                let size = RECORD_HEADER + payload.len();
                &&& payload.len() <= MAX_PAYLOAD
                &&& position + size <= boundary
                &&& file.subrange(position, position + size) == crate::format::record_image(
                    expected,
                    payload,
                )
                &&& sized(
                    file.subrange(position, position + RECORD_HEADER),
                    position,
                    boundary - position,
                ) == Ok::<Option<int>, Seq<char>>(Some(size))
            },
            _ => true,
        },
{
    if let Ok(Some(payload)) = found(file, position, boundary, expected) {
        let head = file.subrange(position, position + RECORD_HEADER);
        let size = sized(head, position, boundary - position)->Ok_0->Some_0;
        let bytes = file.subrange(position, position + size);
        assert(bytes.subrange(8, 12) =~= head.subrange(8, 12));
        crate::format::decoded_record_is_canonical(bytes, expected, payload);
        assert(bytes.take(size) =~= bytes);
    }
}

/// A segment file that holds an encoded record at a place is found to.
pub proof fn lemma_finds_record(
    file: Seq<u8>,
    position: int,
    boundary: int,
    offset: u64,
    payload: Seq<u8>,
)
    requires
        payload.len() <= MAX_PAYLOAD,
        0 <= position,
        position + RECORD_HEADER + payload.len() <= boundary <= file.len(),
        file.subrange(position, position + RECORD_HEADER + payload.len())
            == crate::format::record_image(offset, payload),
    ensures
        found(file, position, boundary, offset) == Ok::<Option<Seq<u8>>, Seq<char>>(Some(payload)),
{
    let image = crate::format::record_image(offset, payload);
    let head = file.subrange(position, position + RECORD_HEADER);
    crate::format::lemma_record_fields(offset, payload);
    crate::format::record_roundtrip(offset, payload, Seq::empty());
    assert(image + Seq::<u8>::empty() =~= image);
    assert(head =~= image.subrange(0, RECORD_HEADER as int));
    assert(head.take(8) =~= image.take(8));
    assert(head.subrange(8, 12) =~= image.subrange(8, 12));
}

/// A segment file that ends inside an encoded record holds no record there, and
/// is not found damaged.
pub proof fn lemma_finds_cut_record(
    file: Seq<u8>,
    position: int,
    offset: u64,
    payload: Seq<u8>,
    expected: u64,
)
    requires
        payload.len() <= MAX_PAYLOAD,
        0 <= position <= file.len() < position + RECORD_HEADER + payload.len(),
        file.subrange(position, file.len() as int) == crate::format::record_image(
            offset,
            payload,
        ).take(file.len() - position),
    ensures
        found(file, position, file.len() as int, expected) == Ok::<Option<Seq<u8>>, Seq<char>>(
            None,
        ),
{
    let image = crate::format::record_image(offset, payload);
    crate::format::lemma_record_fields(offset, payload);
    if file.len() - position >= RECORD_HEADER {
        let head = file.subrange(position, position + RECORD_HEADER);
        let tail = file.subrange(position, file.len() as int);
        assert(head =~= tail.take(RECORD_HEADER as int));
        assert(head.take(8) =~= image.take(8));
        assert(head.subrange(8, 12) =~= image.subrange(8, 12));
    }
}

/// The record at `position` of a segment file: its bytes and their number,
/// `None` where it does not end before `boundary`.
pub fn record_at(file: &[u8], position: u64, boundary: u64, expected: u64) -> (r: Result<
    Option<(Vec<u8>, usize)>,
    Invalid,
>)
    requires
        position <= boundary <= file@.len(),
    ensures
        match found(file@, position as int, boundary as int, expected) {
            Ok(Some(payload)) => r matches Ok(Some((bytes, size))) && bytes@
                == crate::format::record_image(expected, payload) && size == RECORD_HEADER
                + payload.len() && size == bytes@.len(),
            Ok(None) => r matches Ok(None),
            Err(message) => r matches Err(e) && e@ == message,
        },
{
    let room: u64 = boundary - position;
    if room < RECORD_HEADER as u64 {
        return Ok(None);
    }
    assert(boundary <= file.len());
    let from: usize = position as usize;
    let head = slice_subrange(file, from, from + RECORD_HEADER);
    let size: usize = match record_size(head, position, room) {
        Ok(Some(size)) => size,
        Ok(None) => {
            return Ok(None);
        },
        Err(e) => {
            return Err(e);
        },
    };
    proof {
        lemma_found_size(file@, position as int, boundary as int, expected);
    }
    let bytes = bytes::copy_range(file, from, from + size);
    match check_record(bytes.as_slice(), expected) {
        Ok(()) => Ok(Some((bytes, size))),
        Err(e) => Err(e),
    }
}

} // verus!
